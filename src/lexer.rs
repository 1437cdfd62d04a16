use vstd::prelude::*;

verus! {

/// The tokens handed over by the lexer. A float literal carries the bits of
/// its IEEE-754 double.
#[derive(Clone, Debug, PartialEq, Eq)]
pub enum Token {
    Int(usize),
    Float(u64),
    String(String),
    Ident(String),
    True,
    False,
    LParen,
    RParen,
    LSqBracket,
    RSqBracket,
    LBracket,
    RBracket,
    Comma,
    Let,
    If,
    Else,
    While,
    For,
    In,
    Assign,
    Eol,
    Eof,
    Plus,
    Minus,
    Mult,
    Div,
    Mod,
    Pow,
    Eq,
    NotEq,
    Greater,
    GreaterEq,
    Lesser,
    LesserEq,
    ExclMark,
}

/// Tokens with their `(start, end)` byte spans.
pub type Tokens = Vec<(Token, (usize, usize))>;

impl Token {
    /// A copy of the token.
    pub fn duplicate(&self) -> (r: Token)
        ensures
            r == *self,
    {
        match self {
            Token::Int(n) => Token::Int(*n),
            Token::Float(b) => Token::Float(*b),
            Token::String(s) => Token::String(s.clone()),
            Token::Ident(s) => Token::Ident(s.clone()),
            Token::True => Token::True,
            Token::False => Token::False,
            Token::LParen => Token::LParen,
            Token::RParen => Token::RParen,
            Token::LSqBracket => Token::LSqBracket,
            Token::RSqBracket => Token::RSqBracket,
            Token::LBracket => Token::LBracket,
            Token::RBracket => Token::RBracket,
            Token::Comma => Token::Comma,
            Token::Let => Token::Let,
            Token::If => Token::If,
            Token::Else => Token::Else,
            Token::While => Token::While,
            Token::For => Token::For,
            Token::In => Token::In,
            Token::Assign => Token::Assign,
            Token::Eol => Token::Eol,
            Token::Eof => Token::Eof,
            Token::Plus => Token::Plus,
            Token::Minus => Token::Minus,
            Token::Mult => Token::Mult,
            Token::Div => Token::Div,
            Token::Mod => Token::Mod,
            Token::Pow => Token::Pow,
            Token::Eq => Token::Eq,
            Token::NotEq => Token::NotEq,
            Token::Greater => Token::Greater,
            Token::GreaterEq => Token::GreaterEq,
            Token::Lesser => Token::Lesser,
            Token::LesserEq => Token::LesserEq,
            Token::ExclMark => Token::ExclMark,
        }
    }
}

/// The decimal digits of `n`, most significant first.
pub open spec fn decimal(n: nat) -> Seq<char>
    decreases n,
{
    let d = seq![(('0' as u8) + (n % 10) as u8) as char];
    if n < 10 {
        d
    } else {
        decimal(n / 10) + d
    }
}

/// Relies on std's `Display` for `usize`: the decimal digits, no sign or padding.
#[verifier::external_body]
fn usize_text(n: usize) -> (r: String)
    ensures
        r@ == decimal(n as nat),
{
    n.to_string()
}

/// The class of a token, as a syntax error names it.
pub open spec fn spec_tok_typ(t: Token) -> Seq<char> {
    match t {
        Token::Int(_) | Token::Float(_) | Token::String(_) | Token::True | Token::False => "literal"@,
        Token::Ident(_) => "identifier"@,
        Token::Let | Token::If | Token::Else | Token::While | Token::For | Token::In => "keyword"@,
        Token::Eof => "end of file"@,
        Token::LParen | Token::RParen | Token::LSqBracket | Token::RSqBracket | Token::LBracket
        | Token::RBracket | Token::Comma | Token::Eol => "symbol"@,
        _ => "operator"@,
    }
}

/// The lexeme of a token, as a syntax error shows it. A float is shown by
/// its class only.
pub open spec fn spec_tok_name(t: Token) -> Seq<char> {
    match t {
        Token::Int(n) => decimal(n as nat),
        Token::Float(_) => "float"@,
        Token::String(s) => s@,
        Token::Ident(s) => s@,
        Token::True => "true"@,
        Token::False => "false"@,
        Token::LParen => "("@,
        Token::RParen => ")"@,
        Token::LSqBracket => "["@,
        Token::RSqBracket => "]"@,
        Token::LBracket => "{"@,
        Token::RBracket => "}"@,
        Token::Comma => ","@,
        Token::Let => "let"@,
        Token::If => "if"@,
        Token::Else => "else"@,
        Token::While => "while"@,
        Token::For => "for"@,
        Token::In => "in"@,
        Token::Assign => "="@,
        Token::Eol => ";"@,
        Token::Eof => "end of file"@,
        Token::Plus => "+"@,
        Token::Minus => "-"@,
        Token::Mult => "*"@,
        Token::Div => "/"@,
        Token::Mod => "%"@,
        Token::Pow => "^"@,
        Token::Eq => "=="@,
        Token::NotEq => "!="@,
        Token::Greater => ">"@,
        Token::GreaterEq => ">="@,
        Token::Lesser => "<"@,
        Token::LesserEq => "<="@,
        Token::ExclMark => "!"@,
    }
}

impl Token {
    /// The class of the token.
    pub fn tok_typ(&self) -> (r: String)
        ensures
            r@ == spec_tok_typ(*self),
    {
        let s = match self {
            Token::Int(_) | Token::Float(_) | Token::String(_) | Token::True | Token::False => "literal",
            Token::Ident(_) => "identifier",
            Token::Let | Token::If | Token::Else | Token::While | Token::For | Token::In => "keyword",
            Token::Eof => "end of file",
            Token::LParen | Token::RParen | Token::LSqBracket | Token::RSqBracket | Token::LBracket
            | Token::RBracket | Token::Comma | Token::Eol => "symbol",
            _ => "operator",
        };
        s.to_owned()
    }

    /// The lexeme of the token.
    pub fn tok_name(&self) -> (r: String)
        ensures
            r@ == spec_tok_name(*self),
    {
        let s = match self {
            Token::Int(n) => {
                return usize_text(*n);
            },
            Token::String(v) => {
                return v.clone();
            },
            Token::Ident(v) => {
                return v.clone();
            },
            Token::Float(_) => "float",
            Token::True => "true",
            Token::False => "false",
            Token::LParen => "(",
            Token::RParen => ")",
            Token::LSqBracket => "[",
            Token::RSqBracket => "]",
            Token::LBracket => "{",
            Token::RBracket => "}",
            Token::Comma => ",",
            Token::Let => "let",
            Token::If => "if",
            Token::Else => "else",
            Token::While => "while",
            Token::For => "for",
            Token::In => "in",
            Token::Assign => "=",
            Token::Eol => ";",
            Token::Eof => "end of file",
            Token::Plus => "+",
            Token::Minus => "-",
            Token::Mult => "*",
            Token::Div => "/",
            Token::Mod => "%",
            Token::Pow => "^",
            Token::Eq => "==",
            Token::NotEq => "!=",
            Token::Greater => ">",
            Token::GreaterEq => ">=",
            Token::Lesser => "<",
            Token::LesserEq => "<=",
            Token::ExclMark => "!",
        };
        s.to_owned()
    }
}

} // verus!
