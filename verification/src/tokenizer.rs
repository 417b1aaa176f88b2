//! The tokenizer engine: tokenizers that match one token at the start of
//! their input, their ordered alternation, and the scan of a whole source.
use vstd::prelude::*;
use crate::text::{bytes_before, bytes_between, byte_length, char_width, chars_of, clamp,
    lemma_bytes_before_grows, lemma_bytes_before_step, decimal_value, digit_value, is_digit, lemma_decimal_value_grows,
    lemma_run_end, run_end, scan_run, string_from_chars, CharClass};
pub use crate::token::{kinds_of, spans_of, BracketType, Brace, Char, Keyword, KeywordKind,
    Operator, Token, TokenKind, TokenSpan, TokenType};
use vstd::slice::slice_subrange;

verus! {

/// One match of a tokenizer: how many characters of the input it covers,
/// and the token.
#[derive(Debug, PartialEq, Eq)]
pub struct DigestResult {
    pub length: usize,
    pub token: TokenType,
}

/// Model of what `digest` returns.
pub open spec fn digest_view(result: Option<DigestResult>) -> Option<(int, TokenKind)> {
    match result {
        Some(found) => Some((found.length as int, found.token@)),
        None => None,
    }
}

/// A place in a text: the line, counted from 1, and the number of characters
/// that precede the place on its line.
#[derive(Debug, Clone, Copy, PartialEq, Eq, Structural)]
pub struct FilePosition {
    pub line: usize,
    pub character: usize,
}

/// Why a source could not be cut into tokens.
#[derive(Debug, Clone, Copy, PartialEq, Eq, Structural)]
pub enum TokenizerError {
    /// No tokenizer matches at this place.
    UnableToParseToken(FilePosition),
}

/// The number of line feeds among the first `idx` characters of `text`.
pub open spec fn newlines_before(text: Seq<char>, idx: int) -> nat
    decreases idx,
{
    if idx <= 0 {
        0
    } else if idx > text.len() {
        newlines_before(text, text.len() as int)
    } else {
        newlines_before(text, idx - 1) + if text[idx - 1] == '\n' {
            1nat
        } else {
            0nat
        }
    }
}

/// The index at which the line that holds the character at index `idx`
/// begins: just after the last line feed before `idx`, or 0.
pub open spec fn line_start(text: Seq<char>, idx: int) -> int
    decreases idx,
{
    if idx <= 0 {
        0
    } else if idx > text.len() {
        line_start(text, text.len() as int)
    } else if text[idx - 1] == '\n' {
        idx
    } else {
        line_start(text, idx - 1)
    }
}

/// The line and column of the character at index `index` of `text`: the
/// line is 1 plus the number of line feeds before it, the column the number
/// of characters between the last of those line feeds and it.  An index
/// past the end counts as the end.
pub open spec fn position_of(text: Seq<char>, index: int) -> (int, int) {
    ((1 + newlines_before(text, index)) as int, clamp(text, index) - line_start(text, index))
}

/// The index of the first character, from index `at` on, that does not
/// begin before byte `offset`; the length of the text, if there is none.
pub open spec fn chars_from(text: Seq<char>, at: int, offset: int) -> int
    decreases text.len() - at,
{
    if 0 <= at < text.len() && bytes_before(text, at) < offset {
        chars_from(text, at + 1, offset)
    } else {
        at
    }
}

/// The number of characters of `text` that begin before byte `offset`.
pub open spec fn chars_before(text: Seq<char>, offset: int) -> int {
    chars_from(text, 0, offset)
}

/// The line and column of byte offset `offset` in `text`: the line is 1
/// plus the number of line feeds among the characters that begin before
/// that byte, the column the number of characters that begin before that
/// byte and after the last of those line feeds.
pub open spec fn position_at(text: Seq<char>, offset: int) -> (int, int) {
    position_of(text, chars_before(text, offset))
}

/// The characters that begin before the byte offset of a character are
/// those before that character.
pub proof fn lemma_chars_before(text: Seq<char>, index: int)
    requires
        0 <= index <= text.len(),
    ensures
        chars_before(text, bytes_before(text, index)) == index,
        position_at(text, bytes_before(text, index)) == position_of(text, index),
{
    lemma_chars_from(text, 0, index);
}

proof fn lemma_chars_from(text: Seq<char>, at: int, index: int)
    requires
        0 <= at <= index <= text.len(),
    ensures
        chars_from(text, at, bytes_before(text, index)) == index,
    decreases index - at,
{
    if at < index {
        lemma_bytes_before_grows(text, at, index);
        lemma_chars_from(text, at + 1, index);
    }
}

proof fn lemma_position_bounds(text: Seq<char>, idx: int)
    requires
        0 <= idx <= text.len(),
    ensures
        newlines_before(text, idx) <= idx,
        0 <= line_start(text, idx) <= idx,
    decreases idx,
{
    if idx > 0 {
        lemma_position_bounds(text, idx - 1);
    }
}

fn position_in(text: &[char], idx: usize) -> (position: FilePosition)
    requires
        idx < usize::MAX,
    ensures
        (position.line as int, position.character as int) == position_of(text@, idx as int),
{
    let stop: usize = if idx < text.len() {
        idx
    } else {
        text.len()
    };
    let mut line: usize = 1;
    let mut character: usize = 0;
    let mut i: usize = 0;
    while i < stop
        invariant
            i <= stop <= text@.len(),
            stop < usize::MAX,
            line == 1 + newlines_before(text@, i as int),
            character == i - line_start(text@, i as int),
        decreases stop - i,
    {
        proof {
            lemma_position_bounds(text@, i as int);
        }
        if text[i] == '\n' {
            line = line + 1;
            character = 0;
        } else {
            character = character + 1;
        }
        i = i + 1;
    }
    FilePosition { line, character }
}

impl FilePosition {
    /// The position of byte offset `idx` of `file`.
    pub fn from_index(file: &str, idx: usize) -> (position: Self)
        requires
            idx < usize::MAX,
        ensures
            (position.line as int, position.character as int) == position_at(file@, idx as int),
    {
        let chars = chars_of(file);
        let size = file.as_bytes().len();
        assert(byte_length(chars@) == size);
        let mut count: usize = 0;
        let mut start: usize = 0;
        proof {
            lemma_bytes_before_grows(chars@, 0, 0);
        }
        while count < chars.len() && start < idx
            invariant
                count <= chars@.len(),
                count <= start,
                count <= idx,
                start == bytes_before(chars@, count as int),
                byte_length(chars@) <= usize::MAX,
                chars_from(chars@, count as int, idx as int) == chars_before(chars@, idx as int),
            decreases chars@.len() - count,
        {
            proof {
                lemma_bytes_before_step(chars@, count as int);
                lemma_bytes_before_grows(chars@, count + 1, chars@.len() as int);
            }
            start = start + char_width(chars[count]);
            count = count + 1;
        }
        position_in(chars.as_slice(), count)
    }
}

/// The byte spans of tokens whose spans are given in characters.
pub open spec fn byte_spans(source: Seq<char>, spans: Seq<TokenSpan>) -> Seq<TokenSpan> {
    spans.map_values(
        |span: TokenSpan|
            TokenSpan {
                start: bytes_before(source, span.start),
                end: bytes_before(source, span.end),
                kind: span.kind,
            },
    )
}

/// Match of a fixed text: `literal`, if it is not empty and the input begins
/// with it.
pub open spec fn literal_match(literal: Seq<char>, kind: TokenKind, input: Seq<char>) -> Option<
    (int, TokenKind),
> {
    if literal.len() > 0 && literal.is_prefix_of(input) {
        Some((literal.len() as int, kind))
    } else {
        None
    }
}

/// Match of a string literal: a `"`, the characters up to the next `"`, and
/// that `"`.  Without a closing `"` there is no match.
pub open spec fn string_literal_match(input: Seq<char>) -> Option<(int, TokenKind)> {
    let close = run_end(input, 1, CharClass::NotQuote);
    if input.len() > 0 && input[0] == '"' && close < input.len() {
        Some((close + 1, TokenKind::StringLiteral(input.subrange(1, close))))
    } else {
        None
    }
}

/// Match of a number literal: an optional `-` and a run of decimal digits,
/// not empty, that write a number in the range of `i64`.
pub open spec fn number_literal_match(input: Seq<char>) -> Option<(int, TokenKind)> {
    let negative = input.len() > 0 && input[0] == '-';
    let start: int = if negative {
        1
    } else {
        0
    };
    let end = run_end(input, start, CharClass::Digit);
    let magnitude = decimal_value(input, start, end);
    let value: int = if negative {
        -magnitude
    } else {
        magnitude as int
    };
    if start < end && i64::MIN <= value <= i64::MAX {
        Some((end, TokenKind::NumberLiteral(value as i64)))
    } else {
        None
    }
}

/// Match of a symbol: a letter or `_`, then the run of letters, digits and
/// `_` that follows.
pub open spec fn symbol_match(input: Seq<char>) -> Option<(int, TokenKind)> {
    let end = run_end(input, 1, CharClass::SymbolPart);
    if input.len() > 0 && CharClass::SymbolStart.contains(input[0]) {
        Some((end, TokenKind::Symbol(input.subrange(0, end))))
    } else {
        None
    }
}

/// Match of white space: the run of white space at the start, if any.
pub open spec fn whitespace_match(input: Seq<char>) -> Option<(int, TokenKind)> {
    let end = run_end(input, 0, CharClass::Whitespace);
    if end > 0 {
        Some((end, TokenKind::Whitespace))
    } else {
        None
    }
}

/// Match of a comment: a `;` and the rest of its line, with the line feed
/// where there is one.
pub open spec fn comment_match(input: Seq<char>) -> Option<(int, TokenKind)> {
    let eol = run_end(input, 1, CharClass::NotNewline);
    if input.len() > 0 && input[0] == ';' {
        Some(
            (
                if eol < input.len() {
                    eol + 1
                } else {
                    eol
                },
                TokenKind::Whitespace,
            ),
        )
    } else {
        None
    }
}

/// Matches a fixed text and yields a fixed token.
#[derive(Debug, PartialEq, Eq)]
pub struct StringTokenizer {
    pub string: String,
    pub token: TokenType,
}

impl Clone for StringTokenizer {
    fn clone(&self) -> (copy: Self)
        ensures
            copy == *self,
    {
        StringTokenizer { string: self.string.clone(), token: self.token.clone() }
    }
}

/// Matches a string literal.
#[derive(Debug, Clone, Copy, PartialEq, Eq, Structural)]
pub struct StringLiteralTokenizer {}

/// Matches a number literal.
#[derive(Debug, Clone, Copy, PartialEq, Eq, Structural)]
pub struct NumberLiteralTokenizer {}

/// Matches a symbol.
#[derive(Debug, Clone, Copy, PartialEq, Eq, Structural)]
pub struct SymbolTokenizer {}

/// Matches a run of white space.
#[derive(Debug, Clone, Copy, PartialEq, Eq, Structural)]
pub struct WhitespaceTokenizer {}

/// Matches a comment.
#[derive(Debug, Clone, Copy, PartialEq, Eq, Structural)]
pub struct CommentTokenizer {}

/// Any of the tokenizers of this module.
#[derive(Debug, PartialEq, Eq)]
pub enum AnyTokenizer {
    Literal(StringTokenizer),
    StringLiteral(StringLiteralTokenizer),
    NumberLiteral(NumberLiteralTokenizer),
    Symbol(SymbolTokenizer),
    Whitespace(WhitespaceTokenizer),
    Comment(CommentTokenizer),
    Multiple(MultipleTokenizer),
}

/// Ordered alternation: the match of the first member that matches.
#[derive(Debug, PartialEq, Eq)]
pub struct MultipleTokenizer {
    pub tokenizers: Vec<AnyTokenizer>,
}

/// Match of any tokenizer.
pub open spec fn any_match(tokenizer: AnyTokenizer, input: Seq<char>) -> Option<(int, TokenKind)>
    decreases tokenizer,
{
    match tokenizer {
        AnyTokenizer::Literal(literal) => literal_match(literal.string@, literal.token@, input),
        AnyTokenizer::StringLiteral(_) => string_literal_match(input),
        AnyTokenizer::NumberLiteral(_) => number_literal_match(input),
        AnyTokenizer::Symbol(_) => symbol_match(input),
        AnyTokenizer::Whitespace(_) => whitespace_match(input),
        AnyTokenizer::Comment(_) => comment_match(input),
        AnyTokenizer::Multiple(multiple) => first_match(multiple.tokenizers@, 0, input),
    }
}

/// Match of the first of `tokenizers`, from index `at` on, that matches.
pub open spec fn first_match(tokenizers: Seq<AnyTokenizer>, at: int, input: Seq<char>) -> Option<
    (int, TokenKind),
>
    decreases tokenizers, tokenizers.len() - at,
{
    if 0 <= at < tokenizers.len() {
        match any_match(tokenizers[at], input) {
            Some(found) => Some(found),
            None => first_match(tokenizers, at + 1, input),
        }
    } else {
        None
    }
}

/// Every match covers at least one character and no more than the input
/// holds.
pub open spec fn match_in_bounds(found: Option<(int, TokenKind)>, input: Seq<char>) -> bool {
    found matches Some((length, _)) ==> 0 < length <= input.len()
}

/// A tokenizer: something that may match one token at the start of a text.
pub trait Tokenizer: Sized {
    /// The match at the start of `input`: its length in characters and the
    /// token, or `None`.
    spec fn matched(&self, input: Seq<char>) -> Option<(int, TokenKind)>;

    /// Matches one token at the start of `string`.
    fn digest(&self, string: &[char]) -> (result: Option<DigestResult>)
        ensures
            digest_view(result) == self.matched(string@),
            match_in_bounds(self.matched(string@), string@),
    ;

    /// Cuts `string` into tokens, one after the other from the start, each
    /// with the bytes of `string` that it covers; stops with the position of
    /// the first character at which nothing matches.
    fn digest_all(&self, string: &str) -> (result: Result<Vec<Token>, TokenizerError>)
        ensures
            match result {
                Ok(tokens) => {
                    &&& tokenize(|input: Seq<char>| self.matched(input), string@).1
                        == string@.len()
                    &&& spans_of(tokens@) == byte_spans(
                        string@,
                        tokenize(|input: Seq<char>| self.matched(input), string@).0,
                    )
                },
                Err(TokenizerError::UnableToParseToken(position)) => {
                    &&& tokenize(|input: Seq<char>| self.matched(input), string@).1 < string@.len()
                    &&& (position.line as int, position.character as int) == position_at(
                        string@,
                        bytes_before(
                            string@,
                            tokenize(|input: Seq<char>| self.matched(input), string@).1,
                        ),
                    )
                },
            },
            result matches Ok(tokens) ==> tiles(spans_of(tokens@), byte_length(string@)),
    {
        let chars = chars_of(string);
        let source = chars.as_slice();
        let size = string.as_bytes().len();
        assert(byte_length(source@) == size);
        let mut tokens: Vec<Token> = Vec::new();
        let mut idx: usize = 0;
        let mut offset: usize = 0;
        let ghost matcher = |input: Seq<char>| self.matched(input);
        let ghost mut scanned: Seq<TokenSpan> = Seq::empty();
        proof {
            assert(spans_of(tokens@) =~= byte_spans(source@, scanned));
            lemma_bytes_before_grows(source@, 0, 0);
        }
        while idx < source.len()
            invariant
                source@ == string@,
                idx <= source@.len(),
                byte_length(source@) <= usize::MAX,
                offset == bytes_before(source@, idx as int),
                forall|input: Seq<char>| #[trigger] matcher(input) == self.matched(input),
                scan_from(matcher, source@, idx as int, scanned) == tokenize(matcher, source@),
                spans_of(tokens@) == byte_spans(source@, scanned),
                tiles(spans_of(tokens@), offset as int),
            decreases source@.len() - idx,
        {
            let rest = slice_subrange(source, idx, source.len());
            match self.digest(rest) {
                Some(found) => {
                    let ghost before = spans_of(tokens@);
                    proof {
                        assert(matcher(rest@) == Some((found.length as int, found.token@)));
                        lemma_bytes_before_grows(source@, idx as int, idx + found.length);
                    }
                    let width = bytes_between(source, idx, idx + found.length);
                    let token = Token {
                        token_type: found.token,
                        from: offset,
                        to: offset + width,
                    };
                    proof {
                        let span = TokenSpan {
                            start: idx as int,
                            end: idx + found.length,
                            kind: found.token@,
                        };
                        assert(byte_spans(source@, scanned.push(span)) =~= byte_spans(
                            source@,
                            scanned,
                        ).push(token@));
                        scanned = scanned.push(span);
                        lemma_tiles_push(before, token@);
                    }
                    idx = idx + found.length;
                    offset = offset + width;
                    tokens.push(token);
                    proof {
                        assert(spans_of(tokens@) =~= before.push(token@));
                    }
                },
                None => {
                    proof {
                        assert(matcher(rest@) is None);
                        assert(scan_from(matcher, source@, idx as int, scanned) == (
                            scanned,
                            idx as int,
                        ));
                        lemma_bytes_before_grows(source@, 0, source@.len() as int);
                        lemma_chars_before(source@, idx as int);
                    }
                    let position = position_in(source, idx);
                    assert(matcher =~= (|input: Seq<char>| self.matched(input)));
                    return Err(TokenizerError::UnableToParseToken(position));
                },
            }
        }
        proof {
            assert(matcher =~= (|input: Seq<char>| self.matched(input)));
            lemma_bytes_before_grows(source@, 0, source@.len() as int);
        }
        Ok(tokens)
    }
}

impl Tokenizer for StringTokenizer {
    open spec fn matched(&self, input: Seq<char>) -> Option<(int, TokenKind)> {
        literal_match(self.string@, self.token@, input)
    }

    fn digest(&self, string: &[char]) -> (result: Option<DigestResult>) {
        let mut length: usize = 0;
        for c in it: self.string.as_str().chars()
            invariant
                it.seq() == self.string@,
                length == it.index(),
                length <= string@.len(),
                forall|i: int| 0 <= i < length ==> string@[i] == self.string@[i],
        {
            if length >= string.len() || string[length] != c {
                proof {
                    let literal = self.string@;
                    if literal.is_prefix_of(string@) {
                        assert(literal[length as int] == string@.subrange(
                            0,
                            literal.len() as int,
                        )[length as int]);
                    }
                    assert(self.matched(string@) is None);
                }
                return None;
            }
            length = length + 1;
        }
        proof {
            assert(self.string@ =~= string@.subrange(0, length as int));
            assert(self.matched(string@) == if length > 0 {
                Some((length as int, self.token@))
            } else {
                None
            });
        }
        if length > 0 {
            Some(DigestResult { length, token: self.token.clone() })
        } else {
            None
        }
    }
}

impl Tokenizer for StringLiteralTokenizer {
    open spec fn matched(&self, input: Seq<char>) -> Option<(int, TokenKind)> {
        string_literal_match(input)
    }

    fn digest(&self, string: &[char]) -> (result: Option<DigestResult>) {
        if string.len() > 0 && string[0] == '"' {
            let close = scan_run(string, 1, CharClass::NotQuote);
            if close < string.len() {
                let text = string_from_chars(slice_subrange(string, 1, close));
                assert(self.matched(string@) == Some(
                    (close + 1, TokenKind::StringLiteral(text@)),
                ));
                Some(DigestResult { length: close + 1, token: TokenType::StringLiteral(text) })
            } else {
                assert(self.matched(string@) is None);
                None
            }
        } else {
            assert(self.matched(string@) is None);
            None
        }
    }
}

impl Tokenizer for NumberLiteralTokenizer {
    open spec fn matched(&self, input: Seq<char>) -> Option<(int, TokenKind)> {
        number_literal_match(input)
    }

    fn digest(&self, string: &[char]) -> (result: Option<DigestResult>) {
        let negative = string.len() > 0 && string[0] == '-';
        let start: usize = if negative {
            1
        } else {
            0
        };
        let end = scan_run(string, start, CharClass::Digit);
        if end == start {
            assert(self.matched(string@) is None);
            return None;
        }
        proof {
            lemma_run_end(string@, start as int, CharClass::Digit);
        }
        let limit: u64 = 0x8000_0000_0000_0000;
        let mut magnitude: u64 = 0;
        let mut i: usize = start;
        while i < end
            invariant
                start <= i <= end <= string@.len(),
                limit == 0x8000_0000_0000_0000,
                magnitude == decimal_value(string@, start as int, i as int),
                magnitude <= limit,
                forall|j: int| start <= j < end ==> is_digit(#[trigger] string@[j]),
                negative == (string@.len() > 0 && string@[0] == '-'),
                start == if negative {
                    1int
                } else {
                    0int
                },
                end == run_end(string@, start as int, CharClass::Digit),
            decreases end - i,
        {
            let c = string[i];
            assert(is_digit(c));
            let digit: u64 = (c as u32 - '0' as u32) as u64;
            assert(digit == digit_value(c));
            if magnitude > (limit - digit) / 10 {
                proof {
                    lemma_decimal_value_grows(string@, start as int, i + 1, end as int);
                    assert(decimal_value(string@, start as int, i + 1) == 10 * magnitude + digit);
                    assert(10 * magnitude + digit > limit);
                    assert(decimal_value(string@, start as int, end as int) > i64::MAX + 1);
                    assert(self.matched(string@) is None);
                }
                return None;
            }
            magnitude = magnitude * 10 + digit;
            i = i + 1;
        }
        if negative {
            let value: i64 = if magnitude == limit {
                i64::MIN
            } else {
                -(magnitude as i64)
            };
            assert(self.matched(string@) == Some((end as int, TokenKind::NumberLiteral(value))));
            Some(DigestResult { length: end, token: TokenType::NumberLiteral(value) })
        } else if magnitude == limit {
            assert(self.matched(string@) is None);
            None
        } else {
            let value: i64 = magnitude as i64;
            assert(self.matched(string@) == Some((end as int, TokenKind::NumberLiteral(value))));
            Some(DigestResult { length: end, token: TokenType::NumberLiteral(value) })
        }
    }
}

impl Tokenizer for SymbolTokenizer {
    open spec fn matched(&self, input: Seq<char>) -> Option<(int, TokenKind)> {
        symbol_match(input)
    }

    fn digest(&self, string: &[char]) -> (result: Option<DigestResult>) {
        if string.len() > 0 && CharClass::SymbolStart.test(string[0]) {
            let end = scan_run(string, 1, CharClass::SymbolPart);
            let name = string_from_chars(slice_subrange(string, 0, end));
            assert(self.matched(string@) == Some((end as int, TokenKind::Symbol(name@))));
            Some(DigestResult { length: end, token: TokenType::Symbol(name) })
        } else {
            assert(self.matched(string@) is None);
            None
        }
    }
}

impl Tokenizer for WhitespaceTokenizer {
    open spec fn matched(&self, input: Seq<char>) -> Option<(int, TokenKind)> {
        whitespace_match(input)
    }

    fn digest(&self, string: &[char]) -> (result: Option<DigestResult>) {
        let end = scan_run(string, 0, CharClass::Whitespace);
        if end > 0 {
            assert(self.matched(string@) == Some((end as int, TokenKind::Whitespace)));
            Some(DigestResult { length: end, token: TokenType::Whitespace })
        } else {
            assert(self.matched(string@) is None);
            None
        }
    }
}

impl Tokenizer for CommentTokenizer {
    open spec fn matched(&self, input: Seq<char>) -> Option<(int, TokenKind)> {
        comment_match(input)
    }

    fn digest(&self, string: &[char]) -> (result: Option<DigestResult>) {
        if string.len() > 0 && string[0] == ';' {
            let eol = scan_run(string, 1, CharClass::NotNewline);
            let length: usize = if eol < string.len() {
                eol + 1
            } else {
                eol
            };
            assert(self.matched(string@) == Some((length as int, TokenKind::Whitespace)));
            Some(DigestResult { length, token: TokenType::Whitespace })
        } else {
            assert(self.matched(string@) is None);
            None
        }
    }
}

/// Matches one token at the start of `string` with any tokenizer.
fn digest_any(tokenizer: &AnyTokenizer, string: &[char]) -> (result: Option<DigestResult>)
    ensures
        digest_view(result) == any_match(*tokenizer, string@),
        match_in_bounds(any_match(*tokenizer, string@), string@),
    decreases tokenizer,
{
    match tokenizer {
        AnyTokenizer::Literal(literal) => literal.digest(string),
        AnyTokenizer::StringLiteral(inner) => inner.digest(string),
        AnyTokenizer::NumberLiteral(inner) => inner.digest(string),
        AnyTokenizer::Symbol(inner) => inner.digest(string),
        AnyTokenizer::Whitespace(inner) => inner.digest(string),
        AnyTokenizer::Comment(inner) => inner.digest(string),
        AnyTokenizer::Multiple(multiple) => digest_first(&multiple.tokenizers, string),
    }
}

/// Matches one token at the start of `string` with the first of
/// `tokenizers` that matches.
fn digest_first(tokenizers: &Vec<AnyTokenizer>, string: &[char]) -> (result: Option<DigestResult>)
    ensures
        digest_view(result) == first_match(tokenizers@, 0, string@),
        match_in_bounds(first_match(tokenizers@, 0, string@), string@),
    decreases tokenizers,
{
    let mut i: usize = 0;
    while i < tokenizers.len()
        invariant
            i <= tokenizers@.len(),
            first_match(tokenizers@, i as int, string@) == first_match(tokenizers@, 0, string@),
        decreases tokenizers@.len() - i,
    {
        match digest_any(&tokenizers[i], string) {
            Some(found) => {
                return Some(found);
            },
            None => {},
        }
        i = i + 1;
    }
    None
}

impl Tokenizer for AnyTokenizer {
    open spec fn matched(&self, input: Seq<char>) -> Option<(int, TokenKind)> {
        any_match(*self, input)
    }

    fn digest(&self, string: &[char]) -> (result: Option<DigestResult>) {
        digest_any(self, string)
    }
}

impl Tokenizer for MultipleTokenizer {
    open spec fn matched(&self, input: Seq<char>) -> Option<(int, TokenKind)> {
        first_match(self.tokenizers@, 0, input)
    }

    fn digest(&self, string: &[char]) -> (result: Option<DigestResult>) {
        digest_first(&self.tokenizers, string)
    }
}

/// The scan of `source` from the character at index `at` on, after the
/// tokens `done`, by a tokenizer whose matches are those of `matcher`: the
/// tokens found in all, each with the indices of its first character and of
/// the character after its last, and the index of the character at which
/// the scan stopped.  It stops at the end of the source, or where there is
/// no match.
pub open spec fn scan_from(
    matcher: spec_fn(Seq<char>) -> Option<(int, TokenKind)>,
    source: Seq<char>,
    at: int,
    done: Seq<TokenSpan>,
) -> (Seq<TokenSpan>, int)
    decreases source.len() - at,
{
    if 0 <= at < source.len() {
        match matcher(source.subrange(at, source.len() as int)) {
            Some((length, kind)) if 0 < length <= source.len() - at => scan_from(
                matcher,
                source,
                at + length,
                done.push(TokenSpan { start: at, end: at + length, kind }),
            ),
            _ => (done, at),
        }
    } else {
        (done, at)
    }
}

/// The scan of a whole source.
pub open spec fn tokenize(
    matcher: spec_fn(Seq<char>) -> Option<(int, TokenKind)>,
    source: Seq<char>,
) -> (Seq<TokenSpan>, int) {
    scan_from(matcher, source, 0, Seq::empty())
}

/// The spans lie side by side from offset 0 to offset `end`: none is empty,
/// each begins where the one before it ends.
pub open spec fn tiles(spans: Seq<TokenSpan>, end: int) -> bool {
    &&& forall|i: int| 0 <= i < spans.len() ==> (#[trigger] spans[i]).start < spans[i].end
    &&& forall|i: int, j: int|
        0 <= i && j == i + 1 && j < spans.len() ==> (#[trigger] spans[i]).end == (
        #[trigger] spans[j]).start
    &&& spans.len() > 0 ==> spans[0].start == 0
    &&& end == if spans.len() == 0 {
        0
    } else {
        spans.last().end
    }
}

/// Spans that lie side by side still do when one more is put at their end.
pub proof fn lemma_tiles_push(spans: Seq<TokenSpan>, span: TokenSpan)
    requires
        tiles(spans, span.start),
        span.start < span.end,
    ensures
        tiles(spans.push(span), span.end),
{
    let longer = spans.push(span);
    assert forall|i: int| 0 <= i < longer.len() implies (#[trigger] longer[i]).start
        < longer[i].end by {
        if i < spans.len() {
            assert(longer[i] == spans[i]);
        }
    }
    assert forall|i: int, j: int| 0 <= i && j == i + 1 && j < longer.len() implies (
    #[trigger] longer[i]).end == (#[trigger] longer[j]).start by {
        assert(longer[i] == spans[i]);
        if j < spans.len() {
            assert(longer[j] == spans[j]);
        }
    }
}

/// Each span is what the matcher finds where the span begins: its length
/// and kind are those of the match at the start of the rest of the source.
pub open spec fn faithful(
    matcher: spec_fn(Seq<char>) -> Option<(int, TokenKind)>,
    source: Seq<char>,
    spans: Seq<TokenSpan>,
) -> bool {
    forall|i: int|
        0 <= i < spans.len() ==> 0 <= (#[trigger] spans[i]).start <= source.len() && matcher(
            source.subrange(spans[i].start, source.len() as int),
        ) == Some((spans[i].end - spans[i].start, spans[i].kind))
}

/// A scan goes on as it began: it keeps tokens that lie side by side and
/// are what the matcher finds, and it stops inside the source.
pub proof fn lemma_scan_tiles(
    matcher: spec_fn(Seq<char>) -> Option<(int, TokenKind)>,
    source: Seq<char>,
    at: int,
    done: Seq<TokenSpan>,
)
    requires
        0 <= at <= source.len(),
        tiles(done, at),
        faithful(matcher, source, done),
    ensures
        at <= scan_from(matcher, source, at, done).1 <= source.len(),
        tiles(scan_from(matcher, source, at, done).0, scan_from(matcher, source, at, done).1),
        faithful(matcher, source, scan_from(matcher, source, at, done).0),
        scan_from(matcher, source, at, done).1 < source.len() ==> !(matcher(
            source.subrange(
                scan_from(matcher, source, at, done).1,
                source.len() as int,
            ),
        ) matches Some((length, _)) && 0 < length <= source.len() - scan_from(
            matcher,
            source,
            at,
            done,
        ).1),
    decreases source.len() - at,
{
    if at < source.len() {
        match matcher(source.subrange(at, source.len() as int)) {
            Some((length, kind)) => {
                if 0 < length <= source.len() - at {
                    let span = TokenSpan { start: at, end: at + length, kind };
                    let longer = done.push(span);
                    lemma_tiles_push(done, span);
                    assert forall|i: int| 0 <= i < longer.len() implies 0 <= (
                    #[trigger] longer[i]).start <= source.len() && matcher(
                        source.subrange(longer[i].start, source.len() as int),
                    ) == Some((longer[i].end - longer[i].start, longer[i].kind)) by {
                        if i < done.len() {
                            assert(longer[i] == done[i]);
                        }
                    }
                    lemma_scan_tiles(matcher, source, at + length, longer);
                }
            },
            None => {},
        }
    }
}

/// The tokens of a scan tile the source up to where the scan stopped: they
/// lie side by side from the first character on, none is empty, and each is
/// what the matcher finds at its start.  Where the scan stopped before the
/// end, the matcher finds nothing.
pub proof fn lemma_tokenize_tiles(
    matcher: spec_fn(Seq<char>) -> Option<(int, TokenKind)>,
    source: Seq<char>,
)
    ensures
        0 <= tokenize(matcher, source).1 <= source.len(),
        tiles(tokenize(matcher, source).0, tokenize(matcher, source).1),
        faithful(matcher, source, tokenize(matcher, source).0),
        tokenize(matcher, source).1 < source.len() ==> !(matcher(
            source.subrange(tokenize(matcher, source).1, source.len() as int),
        ) matches Some((length, _)) && 0 < length <= source.len() - tokenize(
            matcher,
            source,
        ).1),
{
    lemma_scan_tiles(matcher, source, 0, Seq::empty());
}

} // verus!
