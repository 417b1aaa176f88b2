//! Tokens: what the tokenizers produce and the parsers consume.
//!
//! Each executable type has a model in which text is a `Seq<char>`; the
//! contracts of the crate speak of the models.
use vstd::prelude::*;

verus! {

/// Punctuation marks.
#[derive(Debug, Clone, Copy, PartialEq, Eq, Structural)]
pub enum Char {
    Semicolon,
    Colon,
    Percent,
    Dollar,
    Comma,
    Bang,
}

/// The side of a bracket.
#[derive(Debug, Clone, Copy, PartialEq, Eq, Structural)]
pub enum BracketType {
    Opening,
    Closing,
}

/// A bracket, by shape and side.
#[derive(Debug, Clone, Copy, PartialEq, Eq, Structural)]
pub enum Brace {
    Curly(BracketType),
    Square(BracketType),
    Round(BracketType),
}

/// The binary operators of expressions.
#[derive(Debug, Clone, Copy, PartialEq, Eq, Structural)]
pub enum Operator {
    Add,
    Sub,
    Mult,
    Div,
}

/// Keywords: the four fixed ones, and one per instruction of the loaded
/// instruction set, with its opcode and mnemonic.
#[derive(Debug, PartialEq, Eq)]
pub enum Keyword {
    Macro,
    Include,
    Define,
    End,
    Instruction(u64, String),
}

/// Model of a [`Keyword`].
pub enum KeywordKind {
    Macro,
    Include,
    Define,
    End,
    Instruction(u64, Seq<char>),
}

impl View for Keyword {
    type V = KeywordKind;

    open spec fn view(&self) -> KeywordKind {
        match *self {
            Keyword::Macro => KeywordKind::Macro,
            Keyword::Include => KeywordKind::Include,
            Keyword::Define => KeywordKind::Define,
            Keyword::End => KeywordKind::End,
            Keyword::Instruction(opcode, mnemonic) => KeywordKind::Instruction(opcode, mnemonic@),
        }
    }
}

impl Clone for Keyword {
    fn clone(&self) -> (copy: Self)
        ensures
            copy == *self,
    {
        match self {
            Keyword::Macro => Keyword::Macro,
            Keyword::Include => Keyword::Include,
            Keyword::Define => Keyword::Define,
            Keyword::End => Keyword::End,
            Keyword::Instruction(opcode, mnemonic) => Keyword::Instruction(
                *opcode,
                mnemonic.clone(),
            ),
        }
    }
}

/// What a token is.
#[derive(Debug, PartialEq, Eq)]
pub enum TokenType {
    /// White space or a comment.
    Whitespace,
    /// The text between two double quotes.
    StringLiteral(String),
    NumberLiteral(i64),
    Char(Char),
    Brace(Brace),
    Operator(Operator),
    Keyword(Keyword),
    /// An identifier that is no keyword.
    Symbol(String),
}

/// Model of a [`TokenType`].
pub enum TokenKind {
    Whitespace,
    StringLiteral(Seq<char>),
    NumberLiteral(i64),
    Punctuation(Char),
    Brace(Brace),
    Operator(Operator),
    Keyword(KeywordKind),
    Symbol(Seq<char>),
}

impl View for TokenType {
    type V = TokenKind;

    open spec fn view(&self) -> TokenKind {
        match *self {
            TokenType::Whitespace => TokenKind::Whitespace,
            TokenType::StringLiteral(text) => TokenKind::StringLiteral(text@),
            TokenType::NumberLiteral(value) => TokenKind::NumberLiteral(value),
            TokenType::Char(mark) => TokenKind::Punctuation(mark),
            TokenType::Brace(brace) => TokenKind::Brace(brace),
            TokenType::Operator(operator) => TokenKind::Operator(operator),
            TokenType::Keyword(keyword) => TokenKind::Keyword(keyword@),
            TokenType::Symbol(name) => TokenKind::Symbol(name@),
        }
    }
}

impl Clone for TokenType {
    fn clone(&self) -> (copy: Self)
        ensures
            copy == *self,
    {
        match self {
            TokenType::Whitespace => TokenType::Whitespace,
            TokenType::StringLiteral(text) => TokenType::StringLiteral(text.clone()),
            TokenType::NumberLiteral(value) => TokenType::NumberLiteral(*value),
            TokenType::Char(mark) => TokenType::Char(*mark),
            TokenType::Brace(brace) => TokenType::Brace(*brace),
            TokenType::Operator(operator) => TokenType::Operator(*operator),
            TokenType::Keyword(keyword) => TokenType::Keyword(keyword.clone()),
            TokenType::Symbol(name) => TokenType::Symbol(name.clone()),
        }
    }
}

impl Keyword {
    /// Whether two keywords are the same, text by text.
    pub fn same_as(&self, other: &Keyword) -> (b: bool)
        ensures
            b == (self@ == other@),
    {
        match (self, other) {
            (Keyword::Macro, Keyword::Macro) => true,
            (Keyword::Include, Keyword::Include) => true,
            (Keyword::Define, Keyword::Define) => true,
            (Keyword::End, Keyword::End) => true,
            (Keyword::Instruction(opcode, mnemonic), Keyword::Instruction(other_opcode, other_mnemonic)) => {
                *opcode == *other_opcode && *mnemonic == *other_mnemonic
            },
            _ => false,
        }
    }
}

impl TokenType {
    /// Whether two tokens are of the same kind, text by text.
    pub fn same_as(&self, other: &TokenType) -> (b: bool)
        ensures
            b == (self@ == other@),
    {
        match (self, other) {
            (TokenType::Whitespace, TokenType::Whitespace) => true,
            (TokenType::StringLiteral(text), TokenType::StringLiteral(other_text)) => *text
                == *other_text,
            (TokenType::NumberLiteral(value), TokenType::NumberLiteral(other_value)) => *value
                == *other_value,
            (TokenType::Char(mark), TokenType::Char(other_mark)) => *mark == *other_mark,
            (TokenType::Brace(brace), TokenType::Brace(other_brace)) => *brace == *other_brace,
            (TokenType::Operator(operator), TokenType::Operator(other_operator)) => *operator
                == *other_operator,
            (TokenType::Keyword(keyword), TokenType::Keyword(other_keyword)) => keyword.same_as(
                other_keyword,
            ),
            (TokenType::Symbol(name), TokenType::Symbol(other_name)) => *name == *other_name,
            _ => false,
        }
    }

    /// Whether the token is the punctuation mark `mark`.
    pub fn is_mark(&self, mark: Char) -> (b: bool)
        ensures
            b == (self@ == TokenKind::Punctuation(mark)),
    {
        match self {
            TokenType::Char(found) => *found == mark,
            _ => false,
        }
    }

    /// Whether the token is white space or a comment.
    pub fn is_whitespace(&self) -> (b: bool)
        ensures
            b == (self@ is Whitespace),
    {
        match self {
            TokenType::Whitespace => true,
            _ => false,
        }
    }
}

/// A token and the part of the source that it covers: the bytes from
/// offset `from` up to offset `to`.
#[derive(Debug, PartialEq, Eq)]
pub struct Token {
    pub from: usize,
    pub to: usize,
    pub token_type: TokenType,
}

/// Model of a [`Token`]: a kind of token and the part of a text, from
/// offset `start` up to offset `end`, that it covers.
pub struct TokenSpan {
    pub start: int,
    pub end: int,
    pub kind: TokenKind,
}

impl View for Token {
    type V = TokenSpan;

    open spec fn view(&self) -> TokenSpan {
        TokenSpan { start: self.from as int, end: self.to as int, kind: self.token_type@ }
    }
}

impl Clone for Token {
    fn clone(&self) -> (copy: Self)
        ensures
            copy == *self,
    {
        Token { from: self.from, to: self.to, token_type: self.token_type.clone() }
    }
}

/// The models of a sequence of tokens.
pub open spec fn spans_of(tokens: Seq<Token>) -> Seq<TokenSpan> {
    tokens.map_values(|token: Token| token@)
}

/// The kinds of a sequence of token types.
pub open spec fn kinds_of(tokens: Seq<TokenType>) -> Seq<TokenKind> {
    tokens.map_values(|token: TokenType| token@)
}

} // verus!
