//! Tokens: what the lexer produces and the parser reads.
use vstd::prelude::*;

verus! {

#[derive(Debug, Clone, PartialEq, Eq)]
pub enum TokenKind {
    KwInt,
    KwReturn,
    KwIf,
    KwElse,
    KwWhile,
    Ident(String),
    Number(i64),
    LParen,
    RParen,
    LBrace,
    RBrace,
    Semicolon,
    Comma,
    Plus,
    Minus,
    Star,
    Slash,
    Assign,
    Eq,
    Ne,
    Lt,
    Le,
    Gt,
    Ge,
    Eof,
}

/// A token kind as plain values: an identifier carries its characters.
pub enum KindView {
    KwInt,
    KwReturn,
    KwIf,
    KwElse,
    KwWhile,
    Ident(Seq<char>),
    Number(i64),
    LParen,
    RParen,
    LBrace,
    RBrace,
    Semicolon,
    Comma,
    Plus,
    Minus,
    Star,
    Slash,
    Assign,
    Eq,
    Ne,
    Lt,
    Le,
    Gt,
    Ge,
    Eof,
}

impl View for TokenKind {
    type V = KindView;

    open spec fn view(&self) -> KindView {
        match self {
            TokenKind::KwInt => KindView::KwInt,
            TokenKind::KwReturn => KindView::KwReturn,
            TokenKind::KwIf => KindView::KwIf,
            TokenKind::KwElse => KindView::KwElse,
            TokenKind::KwWhile => KindView::KwWhile,
            TokenKind::Ident(s) => KindView::Ident(s@),
            TokenKind::Number(v) => KindView::Number(*v),
            TokenKind::LParen => KindView::LParen,
            TokenKind::RParen => KindView::RParen,
            TokenKind::LBrace => KindView::LBrace,
            TokenKind::RBrace => KindView::RBrace,
            TokenKind::Semicolon => KindView::Semicolon,
            TokenKind::Comma => KindView::Comma,
            TokenKind::Plus => KindView::Plus,
            TokenKind::Minus => KindView::Minus,
            TokenKind::Star => KindView::Star,
            TokenKind::Slash => KindView::Slash,
            TokenKind::Assign => KindView::Assign,
            TokenKind::Eq => KindView::Eq,
            TokenKind::Ne => KindView::Ne,
            TokenKind::Lt => KindView::Lt,
            TokenKind::Le => KindView::Le,
            TokenKind::Gt => KindView::Gt,
            TokenKind::Ge => KindView::Ge,
            TokenKind::Eof => KindView::Eof,
        }
    }
}

/// The variant of a token kind, as a number; two kinds are "the same kind"
/// when their variants agree, whatever they carry.
pub open spec fn kind_tag(k: KindView) -> nat {
    match k {
        KindView::KwInt => 0,
        KindView::KwReturn => 1,
        KindView::KwIf => 2,
        KindView::KwElse => 3,
        KindView::KwWhile => 4,
        KindView::Ident(_) => 5,
        KindView::Number(_) => 6,
        KindView::LParen => 7,
        KindView::RParen => 8,
        KindView::LBrace => 9,
        KindView::RBrace => 10,
        KindView::Semicolon => 11,
        KindView::Comma => 12,
        KindView::Plus => 13,
        KindView::Minus => 14,
        KindView::Star => 15,
        KindView::Slash => 16,
        KindView::Assign => 17,
        KindView::Eq => 18,
        KindView::Ne => 19,
        KindView::Lt => 20,
        KindView::Le => 21,
        KindView::Gt => 22,
        KindView::Ge => 23,
        KindView::Eof => 24,
    }
}

pub open spec fn same_kind(a: KindView, b: KindView) -> bool {
    kind_tag(a) == kind_tag(b)
}

/// The variant number of a token kind.
pub fn tag_of(kind: &TokenKind) -> (t: u8)
    ensures
        t as nat == kind_tag(kind@),
{
    match kind {
        TokenKind::KwInt => 0,
        TokenKind::KwReturn => 1,
        TokenKind::KwIf => 2,
        TokenKind::KwElse => 3,
        TokenKind::KwWhile => 4,
        TokenKind::Ident(_) => 5,
        TokenKind::Number(_) => 6,
        TokenKind::LParen => 7,
        TokenKind::RParen => 8,
        TokenKind::LBrace => 9,
        TokenKind::RBrace => 10,
        TokenKind::Semicolon => 11,
        TokenKind::Comma => 12,
        TokenKind::Plus => 13,
        TokenKind::Minus => 14,
        TokenKind::Star => 15,
        TokenKind::Slash => 16,
        TokenKind::Assign => 17,
        TokenKind::Eq => 18,
        TokenKind::Ne => 19,
        TokenKind::Lt => 20,
        TokenKind::Le => 21,
        TokenKind::Gt => 22,
        TokenKind::Ge => 23,
        TokenKind::Eof => 24,
    }
}

#[derive(Debug, Clone, PartialEq, Eq)]
pub struct Token {
    pub kind: TokenKind,
    pub lexeme: String,
    pub line: usize,
    pub col: usize,
}

/// A token as plain values.
pub struct TokenView {
    pub kind: KindView,
    pub lexeme: Seq<char>,
    pub line: int,
    pub col: int,
}

impl View for Token {
    type V = TokenView;

    open spec fn view(&self) -> TokenView {
        TokenView { kind: self.kind@, lexeme: self.lexeme@, line: self.line as int, col: self.col as int }
    }
}

pub open spec fn tokens_view(ts: Seq<Token>) -> Seq<TokenView> {
    ts.map_values(|t: Token| t@)
}

/// How a token kind is named in error messages.
pub open spec fn kind_name(k: KindView) -> Seq<char> {
    match k {
        KindView::KwInt => "`int`"@,
        KindView::KwReturn => "`return`"@,
        KindView::KwIf => "`if`"@,
        KindView::KwElse => "`else`"@,
        KindView::KwWhile => "`while`"@,
        KindView::Ident(_) => "identifier"@,
        KindView::Number(_) => "number"@,
        KindView::LParen => "`(`"@,
        KindView::RParen => "`)`"@,
        KindView::LBrace => "`{`"@,
        KindView::RBrace => "`}`"@,
        KindView::Semicolon => "`;`"@,
        KindView::Comma => "`,`"@,
        KindView::Plus => "`+`"@,
        KindView::Minus => "`-`"@,
        KindView::Star => "`*`"@,
        KindView::Slash => "`/`"@,
        KindView::Assign => "`=`"@,
        KindView::Eq => "`==`"@,
        KindView::Ne => "`!=`"@,
        KindView::Lt => "`<`"@,
        KindView::Le => "`<=`"@,
        KindView::Gt => "`>`"@,
        KindView::Ge => "`>=`"@,
        KindView::Eof => "end of file"@,
    }
}

/// How a token kind is named in error messages.
pub fn token_name(kind: &TokenKind) -> (name: &'static str)
    ensures
        name@ == kind_name(kind@),
{
    match kind {
        TokenKind::KwInt => "`int`",
        TokenKind::KwReturn => "`return`",
        TokenKind::KwIf => "`if`",
        TokenKind::KwElse => "`else`",
        TokenKind::KwWhile => "`while`",
        TokenKind::Ident(_) => "identifier",
        TokenKind::Number(_) => "number",
        TokenKind::LParen => "`(`",
        TokenKind::RParen => "`)`",
        TokenKind::LBrace => "`{`",
        TokenKind::RBrace => "`}`",
        TokenKind::Semicolon => "`;`",
        TokenKind::Comma => "`,`",
        TokenKind::Plus => "`+`",
        TokenKind::Minus => "`-`",
        TokenKind::Star => "`*`",
        TokenKind::Slash => "`/`",
        TokenKind::Assign => "`=`",
        TokenKind::Eq => "`==`",
        TokenKind::Ne => "`!=`",
        TokenKind::Lt => "`<`",
        TokenKind::Le => "`<=`",
        TokenKind::Gt => "`>`",
        TokenKind::Ge => "`>=`",
        TokenKind::Eof => "end of file",
    }
}

} // verus!
