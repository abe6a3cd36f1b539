//! The lexer: source characters to tokens, with line and column of each.
use vstd::prelude::*;
use crate::error::{CompileError, ErrorView, error_at};
use crate::text::{
    decimal_value, is_ascii_alpha, is_ascii_digit, is_ident_continue, is_whitespace,
    parse_decimal_i64, spec_is_ascii_digit, spec_is_ident_continue, spec_is_ident_start,
    spec_is_whitespace,
};
use crate::token::{KindView, Token, TokenKind, TokenView, tokens_view};

verus! {

// ---------------------------------------------------------------------------
// What lexing means
// ---------------------------------------------------------------------------

/// Line and column (both from 1) of the character at `pos`: a newline starts
/// a new line at column 1, any other character moves one column on.
pub open spec fn line_col(s: Seq<char>, pos: nat) -> (int, int)
    decreases pos,
{
    if pos == 0 {
        (1, 1)
    } else {
        let prev = line_col(s, (pos - 1) as nat);
        if s[pos - 1] == '\n' {
            (prev.0 + 1, 1)
        } else {
            (prev.0, prev.1 + 1)
        }
    }
}

/// The classes of characters that the lexer reads in runs.
pub enum CharClass {
    IdentContinue,
    Digit,
}

pub open spec fn in_class(class: CharClass, c: char) -> bool {
    match class {
        CharClass::IdentContinue => spec_is_ident_continue(c),
        CharClass::Digit => spec_is_ascii_digit(c),
    }
}

/// Length of the longest run of characters of `class` that starts at `p`.
pub open spec fn run_len(s: Seq<char>, p: nat, class: CharClass) -> nat
    decreases s.len() - p,
{
    if p < s.len() && in_class(class, s[p as int]) {
        1 + run_len(s, p + 1, class)
    } else {
        0
    }
}

/// How many characters a line comment whose text starts at `p` still takes:
/// up to and including the next newline, or to the end of the source.
pub open spec fn line_comment_len(s: Seq<char>, p: nat) -> nat
    decreases s.len() - p,
{
    if p >= s.len() {
        0
    } else if s[p as int] == '\n' {
        1
    } else {
        1 + line_comment_len(s, p + 1)
    }
}

/// How many characters a block comment whose text starts at `p` still takes,
/// up to and including the closing `*/`; `None` when it is never closed.
pub open spec fn block_comment_len(s: Seq<char>, p: nat) -> Option<nat>
    decreases s.len() - p,
{
    if p >= s.len() {
        None
    } else if s[p as int] == '*' && p + 1 < s.len() && s[(p + 1) as int] == '/' {
        Some(2)
    } else {
        match block_comment_len(s, p + 1) {
            Some(n) => Some(n + 1),
            None => None,
        }
    }
}

/// `lit` stands in `s` at `p`.
pub open spec fn starts_at(s: Seq<char>, p: nat, lit: Seq<char>) -> bool {
    p + lit.len() <= s.len() && s.subrange(p as int, (p + lit.len()) as int) == lit
}

/// The kind of a word: a keyword, or else an identifier.
pub open spec fn word_kind(word: Seq<char>) -> KindView {
    if word == "int"@ {
        KindView::KwInt
    } else if word == "return"@ {
        KindView::KwReturn
    } else if word == "if"@ {
        KindView::KwIf
    } else if word == "else"@ {
        KindView::KwElse
    } else if word == "while"@ {
        KindView::KwWhile
    } else {
        KindView::Ident(word)
    }
}

/// The operator or punctuation token at `p`, with its width; a two-character
/// operator wins over its one-character prefix.
pub open spec fn operator_at(s: Seq<char>, p: nat) -> Option<(KindView, nat)> {
    if starts_at(s, p, seq!['=', '=']) {
        Some((KindView::Eq, 2))
    } else if starts_at(s, p, seq!['!', '=']) {
        Some((KindView::Ne, 2))
    } else if starts_at(s, p, seq!['<', '=']) {
        Some((KindView::Le, 2))
    } else if starts_at(s, p, seq!['>', '=']) {
        Some((KindView::Ge, 2))
    } else {
        let c = s[p as int];
        if c == '(' {
            Some((KindView::LParen, 1))
        } else if c == ')' {
            Some((KindView::RParen, 1))
        } else if c == '{' {
            Some((KindView::LBrace, 1))
        } else if c == '}' {
            Some((KindView::RBrace, 1))
        } else if c == ';' {
            Some((KindView::Semicolon, 1))
        } else if c == ',' {
            Some((KindView::Comma, 1))
        } else if c == '+' {
            Some((KindView::Plus, 1))
        } else if c == '-' {
            Some((KindView::Minus, 1))
        } else if c == '*' {
            Some((KindView::Star, 1))
        } else if c == '/' {
            Some((KindView::Slash, 1))
        } else if c == '=' {
            Some((KindView::Assign, 1))
        } else if c == '<' {
            Some((KindView::Lt, 1))
        } else if c == '>' {
            Some((KindView::Gt, 1))
        } else {
            None
        }
    }
}

/// The token of kind `kind` whose text is `s[p..p + n]`.
pub open spec fn token_at(s: Seq<char>, p: nat, n: nat, kind: KindView) -> TokenView {
    let (line, col) = line_col(s, p);
    TokenView { kind, lexeme: s.subrange(p as int, (p + n) as int), line, col }
}

pub open spec fn prepend(pre: Seq<TokenView>, rest: Result<Seq<TokenView>, ErrorView>) -> Result<
    Seq<TokenView>,
    ErrorView,
> {
    match rest {
        Ok(ts) => Ok(pre + ts),
        Err(e) => Err(e),
    }
}

/// The tokens of `s` from position `p` on, ended by an end-of-file token,
/// or the first error met.
#[verifier::opaque]
pub open spec fn lex_from(s: Seq<char>, p: nat) -> Result<Seq<TokenView>, ErrorView>
    decreases s.len() - p,
{
    if p >= s.len() {
        Ok(seq![token_at(s, p, 0, KindView::Eof)])
    } else {
        let ch = s[p as int];
        let (line, col) = line_col(s, p);
        proof {
            lemma_scan_bounds(s, p + 1);
            lemma_scan_bounds(s, p + 2);
        }
        if spec_is_whitespace(ch) {
            lex_from(s, p + 1)
        } else if starts_at(s, p, seq!['/', '/']) {
            lex_from(s, p + 2 + line_comment_len(s, p + 2))
        } else if starts_at(s, p, seq!['/', '*']) {
            match block_comment_len(s, p + 2) {
                Some(n) => lex_from(s, p + 2 + n),
                None => Err(error_at(line, col, "unterminated block comment"@)),
            }
        } else if spec_is_ident_start(ch) {
            let n = 1 + run_len(s, p + 1, CharClass::IdentContinue);
            let word = s.subrange(p as int, (p + n) as int);
            prepend(seq![token_at(s, p, n, word_kind(word))], lex_from(s, p + n))
        } else if spec_is_ascii_digit(ch) {
            let n = 1 + run_len(s, p + 1, CharClass::Digit);
            let digits = s.subrange(p as int, (p + n) as int);
            if decimal_value(digits) > i64::MAX {
                Err(error_at(line, col, "integer literal out of range: "@ + digits))
            } else {
                prepend(
                    seq![token_at(s, p, n, KindView::Number(decimal_value(digits) as i64))],
                    lex_from(s, p + n),
                )
            }
        } else {
            match operator_at(s, p) {
                Some((kind, w)) => prepend(seq![token_at(s, p, w, kind)], lex_from(s, p + w)),
                None => Err(error_at(line, col, "unexpected character `"@ + seq![ch] + "`"@)),
            }
        }
    }
}

/// The tokens of the whole source.
pub open spec fn lex(s: Seq<char>) -> Result<Seq<TokenView>, ErrorView> {
    lex_from(s, 0)
}

// ---------------------------------------------------------------------------
// Lemmas about the definitions
// ---------------------------------------------------------------------------

/// What stands at `p` starts with the first character of `lit`.
pub proof fn lemma_starts_at_first(s: Seq<char>, p: nat, lit: Seq<char>)
    requires
        starts_at(s, p, lit),
        lit.len() > 0,
    ensures
        s[p as int] == lit[0],
{
    assert(s.subrange(p as int, (p + lit.len()) as int)[0] == lit[0]);
}

/// Each scan stays inside the source.
pub proof fn lemma_scan_bounds(s: Seq<char>, p: nat)
    ensures
        p <= s.len() ==> p + run_len(s, p, CharClass::IdentContinue) <= s.len(),
        p <= s.len() ==> p + run_len(s, p, CharClass::Digit) <= s.len(),
        p <= s.len() ==> p + line_comment_len(s, p) <= s.len(),
        block_comment_len(s, p) matches Some(n) ==> p + n <= s.len(),
    decreases s.len() - p,
{
    if p < s.len() {
        lemma_scan_bounds(s, p + 1);
    }
}

pub proof fn lemma_line_col_bounds(s: Seq<char>, pos: nat)
    ensures
        line_col(s, pos).0 >= 1,
        line_col(s, pos).1 >= 1,
        line_col(s, pos).0 + line_col(s, pos).1 <= pos + 2,
    decreases pos,
{
    if pos > 0 {
        lemma_line_col_bounds(s, (pos - 1) as nat);
    }
}

/// A run that ends where the class stops (or at the end) has length `q - p`.
pub proof fn lemma_run_len(s: Seq<char>, p: nat, q: nat, class: CharClass)
    requires
        p <= q <= s.len(),
        forall|k: int| p <= k < q ==> in_class(class, #[trigger] s[k]),
        q < s.len() ==> !in_class(class, s[q as int]),
    ensures
        run_len(s, p, class) == q - p,
    decreases q - p,
{
    if p < q {
        assert(in_class(class, s[p as int]));
        lemma_run_len(s, p + 1, q, class);
    }
}

pub proof fn lemma_prepend_assoc(
    a: Seq<TokenView>,
    b: Seq<TokenView>,
    r: Result<Seq<TokenView>, ErrorView>,
)
    ensures
        prepend(a, prepend(b, r)) == prepend(a + b, r),
{
    if let Ok(ts) = r {
        assert(a + (b + ts) =~= (a + b) + ts);
    }
}


// One step of `lex_from`, case by case.

pub proof fn lemma_lex_end(s: Seq<char>, p: nat)
    requires
        p >= s.len(),
    ensures
        lex_from(s, p) == Ok::<Seq<TokenView>, ErrorView>(seq![token_at(s, p, 0, KindView::Eof)]),
{
    reveal(lex_from);
}

pub proof fn lemma_lex_whitespace(s: Seq<char>, p: nat)
    requires
        p < s.len(),
        spec_is_whitespace(s[p as int]),
    ensures
        lex_from(s, p) == lex_from(s, p + 1),
{
    reveal(lex_from);
}

pub proof fn lemma_lex_line_comment(s: Seq<char>, p: nat)
    requires
        p < s.len(),
        !spec_is_whitespace(s[p as int]),
        starts_at(s, p, seq!['/', '/']),
    ensures
        lex_from(s, p) == lex_from(s, p + 2 + line_comment_len(s, p + 2)),
{
    reveal(lex_from);
}

pub proof fn lemma_lex_block_comment(s: Seq<char>, p: nat)
    requires
        p < s.len(),
        !spec_is_whitespace(s[p as int]),
        !starts_at(s, p, seq!['/', '/']),
        starts_at(s, p, seq!['/', '*']),
    ensures
        lex_from(s, p) == (match block_comment_len(s, p + 2) {
            Some(n) => lex_from(s, p + 2 + n),
            None => Err(
                error_at(line_col(s, p).0, line_col(s, p).1, "unterminated block comment"@),
            ),
        }),
{
    reveal(lex_from);
}

/// Neither a comment opener nor whitespace stands at `p`, whose character is not `/` nor blank.
proof fn lemma_not_comment(s: Seq<char>, p: nat)
    requires
        p < s.len(),
        s[p as int] != '/',
    ensures
        !starts_at(s, p, seq!['/', '/']),
        !starts_at(s, p, seq!['/', '*']),
{
    if starts_at(s, p, seq!['/', '/']) {
        lemma_starts_at_first(s, p, seq!['/', '/']);
    }
    if starts_at(s, p, seq!['/', '*']) {
        lemma_starts_at_first(s, p, seq!['/', '*']);
    }
}

pub proof fn lemma_lex_word(s: Seq<char>, p: nat)
    requires
        p < s.len(),
        spec_is_ident_start(s[p as int]),
    ensures
        ({
            let n = 1 + run_len(s, p + 1, CharClass::IdentContinue);
            let word = s.subrange(p as int, (p + n) as int);
            lex_from(s, p) == prepend(seq![token_at(s, p, n, word_kind(word))], lex_from(s, p + n))
        }),
{
    lemma_not_comment(s, p);
    reveal(lex_from);
}

pub proof fn lemma_lex_number(s: Seq<char>, p: nat)
    requires
        p < s.len(),
        spec_is_ascii_digit(s[p as int]),
    ensures
        ({
            let n = 1 + run_len(s, p + 1, CharClass::Digit);
            let digits = s.subrange(p as int, (p + n) as int);
            lex_from(s, p) == if decimal_value(digits) > i64::MAX {
                Err(
                    error_at(
                        line_col(s, p).0,
                        line_col(s, p).1,
                        "integer literal out of range: "@ + digits,
                    ),
                )
            } else {
                prepend(
                    seq![token_at(s, p, n, KindView::Number(decimal_value(digits) as i64))],
                    lex_from(s, p + n),
                )
            }
        }),
{
    lemma_not_comment(s, p);
    reveal(lex_from);
}

pub proof fn lemma_lex_operator(s: Seq<char>, p: nat)
    requires
        p < s.len(),
        !spec_is_whitespace(s[p as int]),
        !spec_is_ident_start(s[p as int]),
        !spec_is_ascii_digit(s[p as int]),
        !starts_at(s, p, seq!['/', '/']),
        !starts_at(s, p, seq!['/', '*']),
    ensures
        lex_from(s, p) == (match operator_at(s, p) {
            Some((kind, w)) => prepend(seq![token_at(s, p, w, kind)], lex_from(s, p + w)),
            None => Err(
                error_at(
                    line_col(s, p).0,
                    line_col(s, p).1,
                    "unexpected character `"@ + seq![s[p as int]] + "`"@,
                ),
            ),
        }),
{
    reveal(lex_from);
}

/// Exactly one end-of-file token, the last one.
pub open spec fn eof_only_at_end(ts: Seq<TokenView>) -> bool {
    &&& ts.len() > 0
    &&& ts.last().kind is Eof
    &&& forall|i: int| 0 <= i < ts.len() - 1 ==> !(#[trigger] ts[i].kind is Eof)
}

proof fn lemma_prepend_eof(t: TokenView, r: Result<Seq<TokenView>, ErrorView>)
    requires
        !(t.kind is Eof),
        r matches Ok(ts) ==> eof_only_at_end(ts),
    ensures
        prepend(seq![t], r) matches Ok(ts) ==> eof_only_at_end(ts),
{
    if let Ok(ts) = r {
        let all = seq![t] + ts;
        assert forall|i: int| 0 <= i < all.len() - 1 implies !(#[trigger] all[i].kind is Eof) by {
            if i > 0 {
                assert(all[i] == ts[i - 1]);
            }
        }
        assert(all.last() == ts.last());
    }
}

/// Whatever the lexer produces ends with an end-of-file token, and holds no other.
pub proof fn lemma_lex_eof(s: Seq<char>, p: nat)
    ensures
        lex_from(s, p) matches Ok(ts) ==> eof_only_at_end(ts),
    decreases s.len() - p,
{
    if p >= s.len() {
        lemma_lex_end(s, p);
    } else {
        let ch = s[p as int];
        lemma_scan_bounds(s, p + 1);
        lemma_scan_bounds(s, p + 2);
        if spec_is_whitespace(ch) {
            lemma_lex_whitespace(s, p);
            lemma_lex_eof(s, p + 1);
        } else if starts_at(s, p, seq!['/', '/']) {
            lemma_lex_line_comment(s, p);
            lemma_lex_eof(s, p + 2 + line_comment_len(s, p + 2));
        } else if starts_at(s, p, seq!['/', '*']) {
            lemma_lex_block_comment(s, p);
            if let Some(n) = block_comment_len(s, p + 2) {
                lemma_lex_eof(s, p + 2 + n);
            }
        } else if spec_is_ident_start(ch) {
            lemma_lex_word(s, p);
            let n = 1 + run_len(s, p + 1, CharClass::IdentContinue);
            lemma_lex_eof(s, p + n);
            let word = s.subrange(p as int, (p + n) as int);
            lemma_prepend_eof(token_at(s, p, n, word_kind(word)), lex_from(s, p + n));
        } else if spec_is_ascii_digit(ch) {
            lemma_not_comment(s, p);
            lemma_lex_number(s, p);
            let n = 1 + run_len(s, p + 1, CharClass::Digit);
            lemma_lex_eof(s, p + n);
            let digits = s.subrange(p as int, (p + n) as int);
            lemma_prepend_eof(
                token_at(s, p, n, KindView::Number(decimal_value(digits) as i64)),
                lex_from(s, p + n),
            );
        } else {
            lemma_lex_operator(s, p);
            if let Some((kind, w)) = operator_at(s, p) {
                lemma_lex_eof(s, p + w);
                lemma_prepend_eof(token_at(s, p, w, kind), lex_from(s, p + w));
            }
        }
    }
}

// ---------------------------------------------------------------------------
// The lexer
// ---------------------------------------------------------------------------

pub struct Lexer {
    chars: Vec<char>,
    pos: usize,
    line: usize,
    col: usize,
}

/// A lexer as plain values: the source, where it stands, and the line and
/// column of that place.
pub struct LexerView {
    pub chars: Seq<char>,
    pub pos: nat,
    pub line: int,
    pub col: int,
}

impl View for Lexer {
    type V = LexerView;

    closed spec fn view(&self) -> LexerView {
        LexerView {
            chars: self.chars@,
            pos: self.pos as nat,
            line: self.line as int,
            col: self.col as int,
        }
    }
}

/// A lexer's view the place `pos` of `chars`, at the line and column of that place.
pub open spec fn lexer_at(chars: Seq<char>, pos: nat) -> LexerView {
    LexerView { chars, pos, line: line_col(chars, pos).0, col: line_col(chars, pos).1 }
}

impl Lexer {
    /// The lexer stands inside its source, and its line and column are those of its place.
    pub open spec fn inv(&self) -> bool {
        &&& self@.pos <= self@.chars.len()
        &&& self@.chars.len() < usize::MAX
        &&& self@ == lexer_at(self@.chars, self@.pos)
    }

    pub fn new(src: &str) -> (lx: Self)
        requires
            src@.len() < usize::MAX,
        ensures
            lx.inv(),
            lx@ == lexer_at(src@, 0),
    {
        let mut chars: Vec<char> = Vec::new();
        for c in it: src.chars()
            invariant
                it.seq() == src@,
                chars@ == src@.take(it.index() as int),
        {
            chars.push(c);
            assert(chars@ =~= src@.take(it.index() + 1));
        }
        assert(src@.take(src@.len() as int) =~= src@);
        Lexer { chars, pos: 0, line: 1, col: 1 }
    }

    /// Turns the rest of the source into tokens, ended by an end-of-file token.
    pub fn tokenize(&mut self) -> (r: Result<Vec<Token>, CompileError>)
        requires
            old(self).inv(),
        ensures
            final(self)@.chars == old(self)@.chars,
            final(self).inv(),
            old(self)@.pos <= final(self)@.pos,
            match lex_from(old(self)@.chars, old(self)@.pos) {
                Ok(ts) => {
                    &&& r matches Ok(v) && tokens_view(v@) == ts
                    &&& final(self)@.pos == old(self)@.chars.len()
                },
                Err(e) => r matches Err(x) && x@ == e,
            },
    {
        let ghost s = self@.chars;
        let ghost p0 = self@.pos;
        let mut tokens: Vec<Token> = Vec::new();
        loop
            invariant
                self.inv(),
                self@.chars == s,
                s == old(self)@.chars,
                p0 == old(self)@.pos,
                p0 <= self@.pos,
                lex_from(s, p0) == prepend(tokens_view(tokens@), lex_from(s, self@.pos)),
            ensures
                self@.pos >= s.len(),
            decreases s.len() - self@.pos,
        {
            let ghost p = self@.pos;
            let ghost before = tokens_view(tokens@);
            let ch = match self.peek() {
                Some(ch) => ch,
                None => {
                    break ;
                },
            };
            if is_whitespace(ch) {
                self.bump();
                proof {
                    lemma_lex_whitespace(s, p);
                }
                continue ;
            }
            proof {
                reveal_strlit("//");
                reveal_strlit("/*");
                assert("//"@ =~= seq!['/', '/']);
                assert("/*"@ =~= seq!['/', '*']);
            }
            if self.starts_with("//") {
                self.skip_line_comment();
                proof {
                    lemma_lex_line_comment(s, p);
                }
                continue ;
            }
            if self.starts_with("/*") {
                let r = self.skip_block_comment();
                proof {
                    lemma_lex_block_comment(s, p);
                }
                match r {
                    Ok(()) => {},
                    Err(e) => {
                        return Err(e);
                    },
                }
                continue ;
            }
            let line = self.line;
            let col = self.col;
            if is_ascii_alpha(ch) || ch == '_' {
                let ident = self.consume_while(is_ident_continue);
                proof {
                    lemma_run_len(s, p + 1, self@.pos, CharClass::IdentContinue);
                    lemma_lex_word(s, p);
                }
                let kind = keyword_kind(&ident);
                let tok = Token { kind, lexeme: ident, line, col };
                tokens.push(tok);
                proof {
                    assert(tokens_view(tokens@) =~= before + seq![tok@]);
                    lemma_prepend_assoc(before, seq![tok@], lex_from(s, self@.pos));
                }
                continue ;
            }
            if is_ascii_digit(ch) {
                let digits = self.consume_while(is_ascii_digit);
                proof {
                    lemma_run_len(s, p + 1, self@.pos, CharClass::Digit);
                    lemma_lex_number(s, p);
                }
                let value = match parse_decimal_i64(digits.as_str()) {
                    Some(v) => v,
                    None => {
                        let mut message = "integer literal out of range: ".to_owned();
                        message.append(digits.as_str());
                        return Err(CompileError::new(line, col, message));
                    },
                };
                let tok = Token { kind: TokenKind::Number(value), lexeme: digits, line, col };
                tokens.push(tok);
                proof {
                    assert(tokens_view(tokens@) =~= before + seq![tok@]);
                    lemma_prepend_assoc(before, seq![tok@], lex_from(s, self@.pos));
                }
                continue ;
            }
            proof {
                reveal_strlit("==");
                reveal_strlit("!=");
                reveal_strlit("<=");
                reveal_strlit(">=");
                assert("=="@ =~= seq!['=', '=']);
                assert("!="@ =~= seq!['!', '=']);
                assert("<="@ =~= seq!['<', '=']);
                assert(">="@ =~= seq!['>', '=']);
                lemma_lex_operator(s, p);
            }
            let (kind, width) = if self.starts_with("==") {
                (TokenKind::Eq, 2usize)
            } else if self.starts_with("!=") {
                (TokenKind::Ne, 2usize)
            } else if self.starts_with("<=") {
                (TokenKind::Le, 2usize)
            } else if self.starts_with(">=") {
                (TokenKind::Ge, 2usize)
            } else {
                match ch {
                    '(' => (TokenKind::LParen, 1usize),
                    ')' => (TokenKind::RParen, 1usize),
                    '{' => (TokenKind::LBrace, 1usize),
                    '}' => (TokenKind::RBrace, 1usize),
                    ';' => (TokenKind::Semicolon, 1usize),
                    ',' => (TokenKind::Comma, 1usize),
                    '+' => (TokenKind::Plus, 1usize),
                    '-' => (TokenKind::Minus, 1usize),
                    '*' => (TokenKind::Star, 1usize),
                    '/' => (TokenKind::Slash, 1usize),
                    '=' => (TokenKind::Assign, 1usize),
                    '<' => (TokenKind::Lt, 1usize),
                    '>' => (TokenKind::Gt, 1usize),
                    _ => {
                        let mut message = "unexpected character `".to_owned();
                        message.push(ch);
                        message.append("`");
                        assert(message@ =~= "unexpected character `"@ + seq![ch] + "`"@);
                        assert(operator_at(s, p) is None);
                        return Err(CompileError::new(line, col, message));
                    },
                }
            };
            assert(operator_at(s, p) == Some((kind@, width as nat)));
            let mut k: usize = 0;
            while k < width
                invariant
                    self.inv(),
                    self@.chars == s,
                    k <= width,
                    self@.pos == p + k,
                    p + width <= s.len(),
                decreases width - k,
            {
                self.bump();
                k = k + 1;
            }
            let lexeme = self.text_between(self.pos - width, self.pos);
            let tok = Token { kind, lexeme, line, col };
            tokens.push(tok);
            proof {
                assert(tokens_view(tokens@) =~= before + seq![tok@]);
                lemma_prepend_assoc(before, seq![tok@], lex_from(s, self@.pos));
            }
        }
        let eof = Token { kind: TokenKind::Eof, lexeme: String::new(), line: self.line, col: self.col };
        tokens.push(eof);
        proof {
            lemma_lex_end(s, self@.pos);
            let pre = tokens_view(tokens@).drop_last();
            assert(pre =~= tokens_view(tokens@.drop_last()));
            assert(eof@.lexeme =~= s.subrange(s.len() as int, s.len() as int));
            assert(tokens_view(tokens@) =~= pre + seq![eof@]);
        }
        Ok(tokens)
    }

    /// The character at the current place, if any.
    pub fn peek(&self) -> (r: Option<char>)
        ensures
            r == (if self@.pos < self@.chars.len() {
                Some(self@.chars[self@.pos as int])
            } else {
                None::<char>
            }),
    {
        if self.pos < self.chars.len() {
            Some(self.chars[self.pos])
        } else {
            None
        }
    }

    /// The character after the current one, if any.
    pub fn peek_next(&self) -> (r: Option<char>)
        requires
            self.inv(),
        ensures
            r == (if self@.pos + 1 < self@.chars.len() {
                Some(self@.chars[(self@.pos + 1) as int])
            } else {
                None::<char>
            }),
    {
        if self.pos + 1 < self.chars.len() {
            Some(self.chars[self.pos + 1])
        } else {
            None
        }
    }

    /// Whether `s` stands at the current place.
    pub fn starts_with(&self, s: &str) -> (r: bool)
        requires
            self.inv(),
        ensures
            r == starts_at(self@.chars, self@.pos, s@),
    {
        let len = self.chars.len();
        let start = self.pos;
        let mut k: usize = 0;
        for c in it: s.chars()
            invariant
                it.seq() == s@,
                k == it.index(),
                len == self@.chars.len(),
                start == self@.pos,
                start <= len,
                start + it.index() <= len,
                self@.chars.subrange(start as int, start + it.index()) == s@.take(
                    it.index() as int,
                ),
        {
            if len - start <= k {
                return false;
            }
            if self.chars[start + k] != c {
                proof {
                    if start + s@.len() <= len {
                        assert(self@.chars.subrange(start as int, start + s@.len())[k as int]
                            != s@[k as int]);
                    }
                }
                return false;
            }
            assert(self@.chars.subrange(start as int, start + k + 1) =~= s@.take(k + 1));
            k = k + 1;
        }
        assert(s@.take(s@.len() as int) =~= s@);
        true
    }

    /// Moves one character on, keeping line and column, and returns the character left behind.
    pub fn bump(&mut self) -> (r: Option<char>)
        requires
            old(self).inv(),
        ensures
            final(self).inv(),
            final(self)@.chars == old(self)@.chars,
            old(self)@.pos < old(self)@.chars.len() ==> {
                &&& r == Some(old(self)@.chars[old(self)@.pos as int])
                &&& final(self)@.pos == old(self)@.pos + 1
            },
            old(self)@.pos >= old(self)@.chars.len() ==> r is None && final(self)@ == old(self)@,
    {
        let ch = match self.peek() {
            Some(ch) => ch,
            None => {
                return None;
            },
        };
        proof {
            lemma_line_col_bounds(self@.chars, self@.pos);
        }
        self.pos += 1;
        if ch == '\n' {
            self.line += 1;
            self.col = 1;
        } else {
            self.col += 1;
        }
        Some(ch)
    }

    /// Reads the longest run of characters that `pred` accepts.
    pub fn consume_while<F: Fn(char) -> bool>(&mut self, pred: F) -> (out: String)
        requires
            old(self).inv(),
            forall|c: char| call_requires(pred, (c,)),
        ensures
            final(self).inv(),
            final(self)@.chars == old(self)@.chars,
            old(self)@.pos <= final(self)@.pos,
            out@ == old(self)@.chars.subrange(old(self)@.pos as int, final(self)@.pos as int),
            forall|k: int|
                old(self)@.pos <= k < final(self)@.pos ==> call_ensures(
                    pred,
                    (#[trigger] old(self)@.chars[k],),
                    true,
                ),
            final(self)@.pos < final(self)@.chars.len() ==> call_ensures(
                pred,
                (final(self)@.chars[final(self)@.pos as int],),
                false,
            ),
    {
        let ghost s = self@.chars;
        let ghost start = self@.pos;
        let mut out = String::new();
        loop
            invariant
                self.inv(),
                self@.chars == s,
                start <= self@.pos,
                out@ == s.subrange(start as int, self@.pos as int),
                forall|c: char| call_requires(pred, (c,)),
                forall|k: int|
                    start <= k < self@.pos ==> call_ensures(pred, (#[trigger] s[k],), true),
            ensures
                self@.pos < s.len() ==> call_ensures(pred, (s[self@.pos as int],), false),
            decreases s.len() - self@.pos,
        {
            let ch = match self.peek() {
                Some(ch) => ch,
                None => {
                    break ;
                },
            };
            if !pred(ch) {
                break ;
            }
            out.push(ch);
            self.bump();
            assert(out@ =~= s.subrange(start as int, self@.pos as int));
        }
        out
    }

    /// Skips a line comment: its opening two characters, then up to and including the next newline.
    pub fn skip_line_comment(&mut self)
        requires
            old(self).inv(),
        ensures
            final(self).inv(),
            final(self)@.chars == old(self)@.chars,
            ({
                let s = old(self)@.chars;
                let q = if old(self)@.pos + 2 <= s.len() {
                    old(self)@.pos + 2
                } else {
                    s.len()
                };
                final(self)@.pos == q + line_comment_len(s, q)
            }),
    {
        let ghost s = self@.chars;
        self.bump();
        self.bump();
        let ghost q = self@.pos;
        loop
            invariant_except_break
                q + line_comment_len(s, q) == self@.pos + line_comment_len(s, self@.pos),
            invariant
                self.inv(),
                self@.chars == s,
                q <= self@.pos,
            ensures
                self@.pos == q + line_comment_len(s, q),
            decreases s.len() - self@.pos,
        {
            let ch = match self.peek() {
                Some(ch) => ch,
                None => {
                    break ;
                },
            };
            self.bump();
            if ch == '\n' {
                break ;
            }
        }
    }

    /// Skips a block comment: its opening two characters, then up to and including `*/`.
    pub fn skip_block_comment(&mut self) -> (r: Result<(), CompileError>)
        requires
            old(self).inv(),
        ensures
            final(self)@.chars == old(self)@.chars,
            ({
                let s = old(self)@.chars;
                let q = if old(self)@.pos + 2 <= s.len() {
                    old(self)@.pos + 2
                } else {
                    s.len()
                };
                match block_comment_len(s, q) {
                    Some(n) => r is Ok && final(self).inv() && final(self)@.pos == q + n,
                    None => {
                        &&& r matches Err(e) && e@ == error_at(
                            old(self)@.line,
                            old(self)@.col,
                            "unterminated block comment"@,
                        )
                        &&& final(self).inv()
                        &&& final(self)@.pos == s.len()
                    },
                }
            }),
    {
        let ghost s = self@.chars;
        let line = self.line;
        let col = self.col;
        self.bump();
        self.bump();
        let ghost q = self@.pos;
        loop
            invariant
                self.inv(),
                self@.chars == s,
                s == old(self)@.chars,
                line == old(self)@.line,
                col == old(self)@.col,
                q == (if old(self)@.pos + 2 <= s.len() {
                    old(self)@.pos + 2
                } else {
                    s.len()
                }),
                q <= self@.pos,
                block_comment_len(s, q) == (match block_comment_len(s, self@.pos) {
                    Some(n) => Some(((self@.pos - q) + n) as nat),
                    None => None::<nat>,
                }),
            ensures
                self@.pos >= s.len(),
            decreases s.len() - self@.pos,
        {
            let ch = match self.peek() {
                Some(ch) => ch,
                None => {
                    break ;
                },
            };
            if ch == '*' {
                if let Some('/') = self.peek_next() {
                    self.bump();
                    self.bump();
                    return Ok(());
                }
            }
            self.bump();
        }
        Err(CompileError::new(line, col, "unterminated block comment".to_owned()))
    }

    /// The source text between two places.
    fn text_between(&self, from: usize, to: usize) -> (out: String)
        requires
            from <= to <= self@.chars.len(),
        ensures
            out@ == self@.chars.subrange(from as int, to as int),
    {
        let mut out = String::new();
        let mut k = from;
        while k < to
            invariant
                from <= k <= to,
                to <= self@.chars.len(),
                out@ == self@.chars.subrange(from as int, k as int),
            decreases to - k,
        {
            out.push(self.chars[k]);
            k = k + 1;
            assert(out@ =~= self@.chars.subrange(from as int, k as int));
        }
        out
    }
}

/// The token kind of a word: a keyword, or else an identifier.
fn keyword_kind(word: &String) -> (kind: TokenKind)
    ensures
        kind@ == word_kind(word@),
{
    if *word == "int".to_owned() {
        TokenKind::KwInt
    } else if *word == "return".to_owned() {
        TokenKind::KwReturn
    } else if *word == "if".to_owned() {
        TokenKind::KwIf
    } else if *word == "else".to_owned() {
        TokenKind::KwElse
    } else if *word == "while".to_owned() {
        TokenKind::KwWhile
    } else {
        TokenKind::Ident(word.clone())
    }
}

} // verus!
