//! The tokenizer of the assembly language.
//!
//! It is an ordered alternation, so the order of its members is a rule of
//! precedence: punctuation comes before the fixed keywords, those before the
//! instruction keywords, those before string and number literals, those
//! before symbols, and white space and comments come last.
use vstd::prelude::*;
use crate::token::{Char, Keyword, KeywordKind, TokenKind, TokenType};
use crate::text::{decimal_value, is_digit, is_whitespace, lemma_run_end, CharClass};
use crate::token::TokenSpan;
use crate::tokenizer::{lemma_tokenize_tiles, tokenize};
use crate::tokenizer::{any_match, comment_match, first_match, literal_match,
    number_literal_match, string_literal_match, symbol_match, whitespace_match, AnyTokenizer,
    CommentTokenizer, MultipleTokenizer, NumberLiteralTokenizer, StringLiteralTokenizer,
    StringTokenizer, SymbolTokenizer, Tokenizer, WhitespaceTokenizer};

verus! {

/// A table of fixed texts, each with the token it stands for.
pub type LiteralTable = Seq<(Seq<char>, TokenKind)>;

/// The punctuation marks of the language.
pub open spec fn punctuation() -> LiteralTable {
    seq![
        (":"@, TokenKind::Punctuation(Char::Colon)),
        ("%"@, TokenKind::Punctuation(Char::Percent)),
        ("$"@, TokenKind::Punctuation(Char::Dollar)),
        (","@, TokenKind::Punctuation(Char::Comma)),
        ("!"@, TokenKind::Punctuation(Char::Bang)),
    ]
}

/// The fixed keywords of the language.
pub open spec fn static_keywords() -> LiteralTable {
    seq![
        ("macro"@, TokenKind::Keyword(KeywordKind::Macro)),
        ("include"@, TokenKind::Keyword(KeywordKind::Include)),
        ("define"@, TokenKind::Keyword(KeywordKind::Define)),
        ("end"@, TokenKind::Keyword(KeywordKind::End)),
    ]
}

/// The table that a sequence of literal tokenizers stands for.
pub open spec fn literals_of(tokenizers: Seq<StringTokenizer>) -> LiteralTable {
    tokenizers.map_values(|tokenizer: StringTokenizer| (tokenizer.string@, tokenizer.token@))
}

/// Match of the first entry of `table`, from index `at` on, that matches.
pub open spec fn table_match(table: LiteralTable, at: int, input: Seq<char>) -> Option<
    (int, TokenKind),
>
    decreases table.len() - at,
{
    if 0 <= at < table.len() {
        match literal_match(table[at].0, table[at].1, input) {
            Some(found) => Some(found),
            None => table_match(table, at + 1, input),
        }
    } else {
        None
    }
}

/// `first` if it is a match, else `second`.
pub open spec fn or_else(first: Option<(int, TokenKind)>, second: Option<(int, TokenKind)>) -> Option<
    (int, TokenKind),
> {
    match first {
        Some(found) => Some(found),
        None => second,
    }
}

/// The token at the start of `input` in the language whose instruction
/// keywords are `instructions`.
pub open spec fn language_match(instructions: LiteralTable, input: Seq<char>) -> Option<
    (int, TokenKind),
> {
    or_else(
        table_match(punctuation(), 0, input),
        or_else(
            table_match(static_keywords(), 0, input),
            or_else(
                table_match(instructions, 0, input),
                or_else(
                    string_literal_match(input),
                    or_else(
                        number_literal_match(input),
                        or_else(
                            symbol_match(input),
                            or_else(whitespace_match(input), comment_match(input)),
                        ),
                    ),
                ),
            ),
        ),
    )
}

/// Whether `group` holds one literal tokenizer for each entry of `table`.
pub open spec fn stands_for(group: Seq<AnyTokenizer>, table: LiteralTable) -> bool {
    &&& group.len() == table.len()
    &&& forall|i: int|
        0 <= i < group.len() ==> ((#[trigger] group[i]) matches AnyTokenizer::Literal(literal)
            && (literal.string@, literal.token@) == table[i])
}

proof fn lemma_group_match(group: Seq<AnyTokenizer>, table: LiteralTable, at: int, input: Seq<char>)
    requires
        stands_for(group, table),
        0 <= at <= group.len(),
    ensures
        first_match(group, at, input) == table_match(table, at, input),
    decreases group.len() - at,
{
    if at < group.len() {
        match group[at] {
            AnyTokenizer::Literal(member) => {
                assert((member.string@, member.token@) == table[at]);
                assert(any_match(group[at], input) == literal_match(
                    table[at].0,
                    table[at].1,
                    input,
                ));
            },
            _ => {},
        }
        lemma_group_match(group, table, at + 1, input);
    }
}

fn literal(text: &str, token: TokenType) -> (tokenizer: AnyTokenizer)
    ensures
        tokenizer matches AnyTokenizer::Literal(made) && made.string@ == text@ && made.token
            == token,
{
    AnyTokenizer::Literal(StringTokenizer { string: text.to_owned(), token })
}

fn punctuation_group() -> (group: AnyTokenizer)
    ensures
        group matches AnyTokenizer::Multiple(multiple) && stands_for(
            multiple.tokenizers@,
            punctuation(),
        ),
{
    let mut members: Vec<AnyTokenizer> = Vec::new();
    members.push(literal(":", TokenType::Char(Char::Colon)));
    members.push(literal("%", TokenType::Char(Char::Percent)));
    members.push(literal("$", TokenType::Char(Char::Dollar)));
    members.push(literal(",", TokenType::Char(Char::Comma)));
    members.push(literal("!", TokenType::Char(Char::Bang)));
    AnyTokenizer::Multiple(MultipleTokenizer { tokenizers: members })
}

fn keyword_group() -> (group: AnyTokenizer)
    ensures
        group matches AnyTokenizer::Multiple(multiple) && stands_for(
            multiple.tokenizers@,
            static_keywords(),
        ),
{
    let mut members: Vec<AnyTokenizer> = Vec::new();
    members.push(literal("macro", TokenType::Keyword(Keyword::Macro)));
    members.push(literal("include", TokenType::Keyword(Keyword::Include)));
    members.push(literal("define", TokenType::Keyword(Keyword::Define)));
    members.push(literal("end", TokenType::Keyword(Keyword::End)));
    AnyTokenizer::Multiple(MultipleTokenizer { tokenizers: members })
}

fn instruction_group(instruction_tokenizers: &Vec<StringTokenizer>) -> (group: AnyTokenizer)
    ensures
        group matches AnyTokenizer::Multiple(multiple) && stands_for(
            multiple.tokenizers@,
            literals_of(instruction_tokenizers@),
        ),
{
    let mut members: Vec<AnyTokenizer> = Vec::new();
    let mut i: usize = 0;
    while i < instruction_tokenizers.len()
        invariant
            i <= instruction_tokenizers@.len(),
            members@.len() == i,
            forall|k: int|
                0 <= k < i ==> ((#[trigger] members@[k]) matches AnyTokenizer::Literal(made)
                    && made == instruction_tokenizers@[k]),
        decreases instruction_tokenizers@.len() - i,
    {
        members.push(AnyTokenizer::Literal(instruction_tokenizers[i].clone()));
        i = i + 1;
    }
    AnyTokenizer::Multiple(MultipleTokenizer { tokenizers: members })
}

/// The tokenizer of the language whose instruction keywords are matched by
/// `instruction_tokenizers`.
pub fn make_tokenizer(instruction_tokenizers: Vec<StringTokenizer>) -> (tokenizer:
    MultipleTokenizer)
    ensures
        forall|input: Seq<char>| #[trigger]
            tokenizer.matched(input) == language_match(
                literals_of(instruction_tokenizers@),
                input,
            ),
{
    let marks = punctuation_group();
    let keywords = keyword_group();
    let instructions = instruction_group(&instruction_tokenizers);
    let mut members: Vec<AnyTokenizer> = Vec::new();
    members.push(marks);
    members.push(keywords);
    members.push(instructions);
    members.push(AnyTokenizer::StringLiteral(StringLiteralTokenizer {  }));
    members.push(AnyTokenizer::NumberLiteral(NumberLiteralTokenizer {  }));
    members.push(AnyTokenizer::Symbol(SymbolTokenizer {  }));
    members.push(AnyTokenizer::Whitespace(WhitespaceTokenizer {  }));
    members.push(AnyTokenizer::Comment(CommentTokenizer {  }));
    let tokenizer = MultipleTokenizer { tokenizers: members };
    proof {
        let table = literals_of(instruction_tokenizers@);
        assert forall|input: Seq<char>| #[trigger]
            tokenizer.matched(input) == language_match(table, input) by {
            let all = tokenizer.tokenizers@;
            reveal_with_fuel(first_match, 9);
            match (all[0], all[1], all[2]) {
                (
                    AnyTokenizer::Multiple(first),
                    AnyTokenizer::Multiple(second),
                    AnyTokenizer::Multiple(third),
                ) => {
                    lemma_group_match(first.tokenizers@, punctuation(), 0, input);
                    lemma_group_match(second.tokenizers@, static_keywords(), 0, input);
                    lemma_group_match(third.tokenizers@, table, 0, input);
                },
                _ => {},
            }
        }
    }
    tokenizer
}

/// Whether `table` holds the text `text` with the token `kind`.
pub open spec fn in_table(table: LiteralTable, text: Seq<char>, kind: TokenKind) -> bool {
    exists|i: int| 0 <= i < table.len() && #[trigger] table[i] == (text, kind)
}

/// Whether `text` writes the number `value`: an optional `-` and decimal
/// digits, at least one, whose value, with that sign, is `value`.
pub open spec fn writes_number(text: Seq<char>, value: i64) -> bool {
    let negative = text.len() > 0 && text[0] == '-';
    let start: int = if negative {
        1
    } else {
        0
    };
    let magnitude = decimal_value(text, start, text.len() as int);
    &&& start < text.len()
    &&& forall|i: int| start <= i < text.len() ==> is_digit(#[trigger] text[i])
    &&& value == if negative {
        -magnitude
    } else {
        magnitude as int
    }
}

/// Whether `text` is a symbol: a letter or `_`, then letters, digits and
/// `_`.
pub open spec fn is_symbol(text: Seq<char>) -> bool {
    &&& text.len() > 0
    &&& CharClass::SymbolStart.contains(text[0])
    &&& forall|i: int| 1 <= i < text.len() ==> CharClass::SymbolPart.contains(#[trigger] text[i])
}

/// Whether `text` is the string literal for `content`: `content`, which
/// holds no `"`, between two `"`.
pub open spec fn quotes(text: Seq<char>, content: Seq<char>) -> bool {
    &&& text == seq!['"'] + content + seq!['"']
    &&& forall|i: int| 0 <= i < content.len() ==> #[trigger] content[i] != '"'
}

/// Whether `text` is white space only, and not empty.
pub open spec fn is_blank(text: Seq<char>) -> bool {
    &&& text.len() > 0
    &&& forall|i: int| 0 <= i < text.len() ==> is_whitespace(#[trigger] text[i])
}

/// Whether `text` is a comment: a `;` and what follows on its line, with
/// the line feed, if any, at the very end.
pub open spec fn is_comment(text: Seq<char>) -> bool {
    &&& text.len() > 0
    &&& text[0] == ';'
    &&& forall|i: int| 0 <= i < text.len() - 1 ==> #[trigger] text[i] != '\n'
}

/// Whether `text` is a way to write a token of kind `kind` in the language
/// whose instruction keywords are `instructions`: an entry of one of the
/// tables, the literal of a string or number, a symbol, white space or a
/// comment.
pub open spec fn is_lexeme(instructions: LiteralTable, kind: TokenKind, text: Seq<char>) -> bool {
    ||| in_table(punctuation(), text, kind)
    ||| in_table(static_keywords(), text, kind)
    ||| in_table(instructions, text, kind)
    ||| match kind {
        TokenKind::StringLiteral(content) => quotes(text, content),
        TokenKind::NumberLiteral(value) => writes_number(text, value),
        TokenKind::Symbol(name) => text == name && is_symbol(name),
        TokenKind::Whitespace => is_blank(text) || is_comment(text),
        _ => false,
    }
}

/// The number written by digits depends on those digits alone.
pub proof fn lemma_decimal_value_same(first: Seq<char>, second: Seq<char>, from: int, to: int)
    requires
        0 <= from <= to <= first.len(),
        to <= second.len(),
        forall|i: int| from <= i < to ==> first[i] == second[i],
    ensures
        decimal_value(first, from, to) == decimal_value(second, from, to),
    decreases to - from,
{
    if from < to {
        lemma_decimal_value_same(first, second, from, to - 1);
    }
}

/// What a table matches is one of its entries, written at the start of the
/// input.
pub proof fn lemma_table_lexeme(table: LiteralTable, at: int, input: Seq<char>)
    requires
        0 <= at <= table.len(),
    ensures
        table_match(table, at, input) matches Some((length, kind)) ==> 0 < length <= input.len()
            && in_table(table, input.take(length), kind),
    decreases table.len() - at,
{
    if at < table.len() {
        match literal_match(table[at].0, table[at].1, input) {
            Some((length, kind)) => {
                assert(input.take(length) =~= table[at].0);
                assert(table[at] == (input.take(length), kind));
            },
            None => {
                lemma_table_lexeme(table, at + 1, input);
            },
        }
    }
}

/// What the language matches at the start of a text is a lexeme of the
/// token it yields: the token says what the matched text is.
pub proof fn lemma_language_lexeme(instructions: LiteralTable, input: Seq<char>)
    ensures
        language_match(instructions, input) matches Some((length, kind)) ==> 0 < length
            <= input.len() && is_lexeme(instructions, kind, input.take(length)),
{
    lemma_table_lexeme(punctuation(), 0, input);
    lemma_table_lexeme(static_keywords(), 0, input);
    lemma_table_lexeme(instructions, 0, input);
    if table_match(punctuation(), 0, input) is Some {
    } else if table_match(static_keywords(), 0, input) is Some {
    } else if table_match(instructions, 0, input) is Some {
    } else if string_literal_match(input) is Some {
        lemma_run_end(input, 1, CharClass::NotQuote);
        let close = crate::text::run_end(input, 1, CharClass::NotQuote);
        let content = input.subrange(1, close);
        assert(input.take(close + 1) =~= seq!['"'] + content + seq!['"']);
        assert forall|i: int| 0 <= i < content.len() implies #[trigger] content[i] != '"' by {
            assert(CharClass::NotQuote.contains(input[i + 1]));
        }
    } else if number_literal_match(input) is Some {
        let negative = input.len() > 0 && input[0] == '-';
        let start: int = if negative {
            1
        } else {
            0
        };
        lemma_run_end(input, start, CharClass::Digit);
        let end = crate::text::run_end(input, start, CharClass::Digit);
        let text = input.take(end);
        lemma_decimal_value_same(input, text, start, end);
        assert forall|i: int| start <= i < text.len() implies is_digit(#[trigger] text[i]) by {
            assert(CharClass::Digit.contains(input[i]));
        }
    } else if symbol_match(input) is Some {
        lemma_run_end(input, 1, CharClass::SymbolPart);
        let end = crate::text::run_end(input, 1, CharClass::SymbolPart);
        let name = input.subrange(0, end);
        assert(input.take(end) =~= name);
        assert forall|i: int| 1 <= i < name.len() implies CharClass::SymbolPart.contains(
            #[trigger] name[i],
        ) by {
            assert(CharClass::SymbolPart.contains(input[i]));
        }
    } else if whitespace_match(input) is Some {
        lemma_run_end(input, 0, CharClass::Whitespace);
        let end = crate::text::run_end(input, 0, CharClass::Whitespace);
        let text = input.take(end);
        assert forall|i: int| 0 <= i < text.len() implies is_whitespace(#[trigger] text[i]) by {
            assert(CharClass::Whitespace.contains(input[i]));
        }
    } else if comment_match(input) is Some {
        lemma_run_end(input, 1, CharClass::NotNewline);
        let eol = crate::text::run_end(input, 1, CharClass::NotNewline);
        let length = if eol < input.len() {
            eol + 1
        } else {
            eol
        };
        let text = input.take(length);
        assert forall|i: int| 0 <= i < text.len() - 1 implies #[trigger] text[i] != '\n' by {
            if 1 <= i {
                assert(CharClass::NotNewline.contains(input[i]));
            }
        }
    }
}

/// Every token of a scan in the language covers a lexeme of its kind: a
/// symbol covers its name, a number the digits that write it, a string its
/// content between quotes, a keyword or punctuation mark its literal; all
/// other text, white space and comments, lies in tokens of white space.
pub proof fn lemma_tokens_are_lexemes(
    instructions: LiteralTable,
    matcher: spec_fn(Seq<char>) -> Option<(int, TokenKind)>,
    source: Seq<char>,
)
    requires
        forall|input: Seq<char>| #[trigger] matcher(input) == language_match(instructions, input),
    ensures
        forall|i: int|
            0 <= i < tokenize(matcher, source).0.len() ==> is_lexeme(
                instructions,
                (#[trigger] tokenize(matcher, source).0[i]).kind,
                source.subrange(
                    tokenize(matcher, source).0[i].start,
                    tokenize(matcher, source).0[i].end,
                ),
            ),
{
    lemma_tokenize_tiles(matcher, source);
    let spans = tokenize(matcher, source).0;
    assert forall|i: int| 0 <= i < spans.len() implies is_lexeme(
        instructions,
        (#[trigger] spans[i]).kind,
        source.subrange(spans[i].start, spans[i].end),
    ) by {
        let span: TokenSpan = spans[i];
        let input = source.subrange(span.start, source.len() as int);
        lemma_language_lexeme(instructions, input);
        assert(matcher(input) == language_match(instructions, input));
        assert(input.take(span.end - span.start) =~= source.subrange(span.start, span.end));
    }
}

/// In a table of instruction keywords, where each entry yields the keyword
/// of its own text, the text of an entry is the mnemonic of its token.
pub proof fn lemma_instruction_lexeme(table: LiteralTable, text: Seq<char>, kind: TokenKind)
    requires
        forall|i: int|
            0 <= i < table.len() ==> ((#[trigger] table[i]).1 matches TokenKind::Keyword(
                KeywordKind::Instruction(_, mnemonic),
            ) && mnemonic == table[i].0),
        in_table(table, text, kind),
    ensures
        kind matches TokenKind::Keyword(KeywordKind::Instruction(_, mnemonic)) && mnemonic == text,
{
    let i = choose|i: int| 0 <= i < table.len() && #[trigger] table[i] == (text, kind);
    assert(table[i].1 == kind);
}

} // verus!
