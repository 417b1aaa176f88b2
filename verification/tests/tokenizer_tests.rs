use asm_frontend::language::make_tokenizer;
use asm_frontend::microcode::keywords_from_microcode;
use asm_frontend::text::{bytes_between, char_width, chars_of, scan_run, CharClass};
use asm_frontend::tokenizer::{
    AnyTokenizer, Char, CommentTokenizer, DigestResult, FilePosition, Keyword,
    MultipleTokenizer, NumberLiteralTokenizer, StringLiteralTokenizer, StringTokenizer,
    SymbolTokenizer, Token, TokenType, Tokenizer, TokenizerError, WhitespaceTokenizer,
};

fn chars(text: &str) -> Vec<char> {
    text.chars().collect()
}

fn language() -> MultipleTokenizer {
    make_tokenizer(keywords_from_microcode("99\nadd\nsub\n"))
}

fn kinds(source: &str) -> Vec<TokenType> {
    language()
        .digest_all(source)
        .unwrap()
        .into_iter()
        .map(|token| token.token_type)
        .collect()
}

fn failure_at(line: usize, character: usize) -> Result<Vec<Token>, TokenizerError> {
    Err(TokenizerError::UnableToParseToken(FilePosition { line, character }))
}

#[test]
fn empty_source_has_no_tokens() {
    assert_eq!(language().digest_all(""), Ok(vec![]));
}

#[test]
fn chars_of_lists_the_characters() {
    assert_eq!(chars_of("a\u{e9}b"), vec!['a', '\u{e9}', 'b']);
    assert_eq!(chars_of(""), Vec::<char>::new());
}

#[test]
fn characters_take_one_to_four_bytes() {
    assert_eq!(char_width('a'), 1);
    assert_eq!(char_width('\u{7f}'), 1);
    assert_eq!(char_width('\u{80}'), 2);
    assert_eq!(char_width('\u{e9}'), 2);
    assert_eq!(char_width('\u{7ff}'), 2);
    assert_eq!(char_width('\u{800}'), 3);
    assert_eq!(char_width('\u{20ac}'), 3);
    assert_eq!(char_width('\u{ffff}'), 3);
    assert_eq!(char_width('\u{10000}'), 4);
    assert_eq!(char_width('\u{10ffff}'), 4);
    for c in ['a', '\u{e9}', '\u{20ac}', '\u{1f600}'] {
        assert_eq!(char_width(c), c.len_utf8());
    }
    let text = chars("a\u{e9}\u{20ac}\u{1f600}b");
    assert_eq!(bytes_between(&text, 0, 5), 11);
    assert_eq!(bytes_between(&text, 1, 3), 5);
    assert_eq!(bytes_between(&text, 2, 2), 0);
}

#[test]
fn run_ends_at_first_character_outside_the_class() {
    assert_eq!(scan_run(&chars("123abc"), 0, CharClass::Digit), 3);
    assert_eq!(scan_run(&chars("123abc"), 3, CharClass::Digit), 3);
    assert_eq!(scan_run(&chars("123"), 1, CharClass::Digit), 3);
    assert_eq!(scan_run(&chars("ab_9-"), 0, CharClass::SymbolPart), 4);
    assert_eq!(scan_run(&chars("9a"), 0, CharClass::SymbolStart), 0);
    assert_eq!(scan_run(&chars(" \t\n\u{a0}x"), 0, CharClass::Whitespace), 4);
    assert_eq!(scan_run(&chars("ab\"c"), 0, CharClass::NotQuote), 2);
    assert_eq!(scan_run(&chars("ab\ncd"), 0, CharClass::NotNewline), 2);
}

#[test]
fn character_classes() {
    assert!(CharClass::Digit.test('0') && CharClass::Digit.test('9'));
    assert!(!CharClass::Digit.test('a') && !CharClass::Digit.test('\u{b2}'));
    assert!(CharClass::SymbolStart.test('_') && CharClass::SymbolStart.test('Z'));
    assert!(!CharClass::SymbolStart.test('1') && !CharClass::SymbolStart.test('\u{e9}'));
    assert!(CharClass::SymbolPart.test('1') && CharClass::SymbolPart.test('a'));
    assert!(!CharClass::SymbolPart.test('-'));
    assert!(CharClass::Whitespace.test(' ') && CharClass::Whitespace.test('\u{2028}'));
    assert!(!CharClass::Whitespace.test('x'));
    assert!(CharClass::NotQuote.test('a') && !CharClass::NotQuote.test('"'));
    assert!(CharClass::NotNewline.test('\r') && !CharClass::NotNewline.test('\n'));
}

#[test]
fn position_counts_lines_from_one_and_columns_from_zero() {
    assert_eq!(FilePosition::from_index("ab\ncd", 0), FilePosition { line: 1, character: 0 });
    assert_eq!(FilePosition::from_index("ab\ncd", 2), FilePosition { line: 1, character: 2 });
    assert_eq!(FilePosition::from_index("ab\ncd", 3), FilePosition { line: 2, character: 0 });
    assert_eq!(FilePosition::from_index("ab\ncd", 4), FilePosition { line: 2, character: 1 });
    assert_eq!(FilePosition::from_index("\n\n\n", 3), FilePosition { line: 4, character: 0 });
}

#[test]
fn position_past_the_end_is_the_end() {
    assert_eq!(FilePosition::from_index("ab", 10), FilePosition { line: 1, character: 2 });
    assert_eq!(FilePosition::from_index("", 5), FilePosition { line: 1, character: 0 });
}

#[test]
fn literal_matches_its_text_at_the_start() {
    let tokenizer = StringTokenizer {
        string: "macro".to_string(),
        token: TokenType::Keyword(Keyword::Macro),
    };
    assert_eq!(
        tokenizer.digest(&chars("macros")),
        Some(DigestResult { length: 5, token: TokenType::Keyword(Keyword::Macro) })
    );
    assert_eq!(tokenizer.digest(&chars("macr")), None);
    assert_eq!(tokenizer.digest(&chars(" macro")), None);
    assert_eq!(tokenizer.digest(&chars("")), None);
}

#[test]
fn empty_literal_never_matches() {
    let tokenizer = StringTokenizer { string: String::new(), token: TokenType::Whitespace };
    assert_eq!(tokenizer.digest(&chars("abc")), None);
    assert_eq!(tokenizer.digest(&chars("")), None);
}

#[test]
fn string_literal_runs_to_the_next_quote() {
    let tokenizer = StringLiteralTokenizer {};
    assert_eq!(
        tokenizer.digest(&chars("\"foo.asm\" rest")),
        Some(DigestResult { length: 9, token: TokenType::StringLiteral("foo.asm".to_string()) })
    );
    assert_eq!(
        tokenizer.digest(&chars("\"\"")),
        Some(DigestResult { length: 2, token: TokenType::StringLiteral(String::new()) })
    );
    assert_eq!(
        tokenizer.digest(&chars("\"a\\\"b\"")),
        Some(DigestResult { length: 4, token: TokenType::StringLiteral("a\\".to_string()) })
    );
    assert_eq!(tokenizer.digest(&chars("foo\"")), None);
}

#[test]
fn unterminated_string_literal_is_no_match() {
    assert_eq!(StringLiteralTokenizer {}.digest(&chars("\"abc")), None);
    assert_eq!(StringLiteralTokenizer {}.digest(&chars("\"")), None);
    assert_eq!(language().digest_all("\"abc"), failure_at(1, 0));
    assert_eq!(language().digest_all("add \"abc"), failure_at(1, 4));
}

#[test]
fn number_literal_is_a_run_of_digits() {
    let tokenizer = NumberLiteralTokenizer {};
    assert_eq!(
        tokenizer.digest(&chars("123abc")),
        Some(DigestResult { length: 3, token: TokenType::NumberLiteral(123) })
    );
    assert_eq!(
        tokenizer.digest(&chars("007")),
        Some(DigestResult { length: 3, token: TokenType::NumberLiteral(7) })
    );
    assert_eq!(tokenizer.digest(&chars("abc")), None);
    assert_eq!(tokenizer.digest(&chars("")), None);
    assert_eq!(tokenizer.digest(&chars("+5")), None);
}

#[test]
fn number_literal_may_be_signed() {
    let tokenizer = NumberLiteralTokenizer {};
    assert_eq!(
        tokenizer.digest(&chars("-5 ")),
        Some(DigestResult { length: 2, token: TokenType::NumberLiteral(-5) })
    );
    assert_eq!(tokenizer.digest(&chars("-")), None);
    assert_eq!(tokenizer.digest(&chars("-x")), None);
    assert_eq!(tokenizer.digest(&chars("--5")), None);
}

#[test]
fn number_literal_must_fit_in_sixty_four_bits() {
    let tokenizer = NumberLiteralTokenizer {};
    assert_eq!(
        tokenizer.digest(&chars("9223372036854775807")),
        Some(DigestResult { length: 19, token: TokenType::NumberLiteral(i64::MAX) })
    );
    assert_eq!(tokenizer.digest(&chars("9223372036854775808")), None);
    assert_eq!(
        tokenizer.digest(&chars("-9223372036854775808")),
        Some(DigestResult { length: 20, token: TokenType::NumberLiteral(i64::MIN) })
    );
    assert_eq!(tokenizer.digest(&chars("-9223372036854775809")), None);
    assert_eq!(tokenizer.digest(&chars("99999999999999999999999999")), None);
    assert_eq!(language().digest_all("9223372036854775808"), failure_at(1, 0));
}

#[test]
fn symbol_is_letters_digits_and_underscores() {
    let tokenizer = SymbolTokenizer {};
    assert_eq!(
        tokenizer.digest(&chars("_foo1 bar")),
        Some(DigestResult { length: 5, token: TokenType::Symbol("_foo1".to_string()) })
    );
    assert_eq!(
        tokenizer.digest(&chars("x")),
        Some(DigestResult { length: 1, token: TokenType::Symbol("x".to_string()) })
    );
    assert_eq!(tokenizer.digest(&chars("1x")), None);
    assert_eq!(tokenizer.digest(&chars("\u{e9}t\u{e9}")), None);
    assert_eq!(
        tokenizer.digest(&chars("caf\u{e9}")),
        Some(DigestResult { length: 3, token: TokenType::Symbol("caf".to_string()) })
    );
}

#[test]
fn whitespace_is_a_maximal_run() {
    let tokenizer = WhitespaceTokenizer {};
    assert_eq!(
        tokenizer.digest(&chars(" \t\r\n x")),
        Some(DigestResult { length: 5, token: TokenType::Whitespace })
    );
    assert_eq!(
        tokenizer.digest(&chars("\u{a0}\u{3000}")),
        Some(DigestResult { length: 2, token: TokenType::Whitespace })
    );
    assert_eq!(tokenizer.digest(&chars("x ")), None);
    assert_eq!(tokenizer.digest(&chars("")), None);
}

#[test]
fn comment_runs_to_the_end_of_its_line() {
    let tokenizer = CommentTokenizer {};
    assert_eq!(
        tokenizer.digest(&chars("; hi\nadd")),
        Some(DigestResult { length: 5, token: TokenType::Whitespace })
    );
    assert_eq!(
        tokenizer.digest(&chars(";\n")),
        Some(DigestResult { length: 2, token: TokenType::Whitespace })
    );
    assert_eq!(tokenizer.digest(&chars("add ; hi")), None);
}

#[test]
fn comment_at_the_end_of_the_source_stops_there() {
    assert_eq!(
        CommentTokenizer {}.digest(&chars("; hi")),
        Some(DigestResult { length: 4, token: TokenType::Whitespace })
    );
    assert_eq!(
        language().digest_all("; hi"),
        Ok(vec![Token { from: 0, to: 4, token_type: TokenType::Whitespace }])
    );
}

#[test]
fn alternation_takes_the_first_member_that_matches() {
    let tokenizer = MultipleTokenizer {
        tokenizers: vec![
            AnyTokenizer::Literal(StringTokenizer {
                string: "ab".to_string(),
                token: TokenType::Char(Char::Colon),
            }),
            AnyTokenizer::Multiple(MultipleTokenizer {
                tokenizers: vec![
                    AnyTokenizer::Symbol(SymbolTokenizer {}),
                    AnyTokenizer::NumberLiteral(NumberLiteralTokenizer {}),
                ],
            }),
            AnyTokenizer::Whitespace(WhitespaceTokenizer {}),
        ],
    };
    assert_eq!(
        tokenizer.digest(&chars("abc")),
        Some(DigestResult { length: 2, token: TokenType::Char(Char::Colon) })
    );
    assert_eq!(
        tokenizer.digest(&chars("acb")),
        Some(DigestResult { length: 3, token: TokenType::Symbol("acb".to_string()) })
    );
    assert_eq!(
        tokenizer.digest(&chars("12")),
        Some(DigestResult { length: 2, token: TokenType::NumberLiteral(12) })
    );
    assert_eq!(tokenizer.digest(&chars("%")), None);
    assert_eq!(MultipleTokenizer { tokenizers: vec![] }.digest(&chars("a")), None);
}

#[test]
fn alternation_member_digests_like_its_tokenizer() {
    let member = AnyTokenizer::Comment(CommentTokenizer {});
    assert_eq!(
        member.digest(&chars(";x")),
        Some(DigestResult { length: 2, token: TokenType::Whitespace })
    );
    assert_eq!(member.digest_all(";a\n;b"), Ok(vec![
        Token { from: 0, to: 3, token_type: TokenType::Whitespace },
        Token { from: 3, to: 5, token_type: TokenType::Whitespace },
    ]));
}

#[test]
fn punctuation_of_the_language() {
    assert_eq!(
        kinds(":%$,!"),
        vec![
            TokenType::Char(Char::Colon),
            TokenType::Char(Char::Percent),
            TokenType::Char(Char::Dollar),
            TokenType::Char(Char::Comma),
            TokenType::Char(Char::Bang),
        ]
    );
}

#[test]
fn keywords_of_the_language() {
    assert_eq!(
        kinds("macro include define end sub"),
        vec![
            TokenType::Keyword(Keyword::Macro),
            TokenType::Whitespace,
            TokenType::Keyword(Keyword::Include),
            TokenType::Whitespace,
            TokenType::Keyword(Keyword::Define),
            TokenType::Whitespace,
            TokenType::Keyword(Keyword::End),
            TokenType::Whitespace,
            TokenType::Keyword(Keyword::Instruction(10, "sub".to_string())),
        ]
    );
}

#[test]
fn keyword_is_matched_before_symbol() {
    assert_eq!(
        kinds("endless"),
        vec![TokenType::Keyword(Keyword::End), TokenType::Symbol("less".to_string())]
    );
    assert_eq!(kinds("En"), vec![TokenType::Symbol("En".to_string())]);
}

#[test]
fn semicolon_begins_a_comment() {
    assert_eq!(
        kinds("add 1 ; add one\nsub 2"),
        vec![
            TokenType::Keyword(Keyword::Instruction(0, "add".to_string())),
            TokenType::Whitespace,
            TokenType::NumberLiteral(1),
            TokenType::Whitespace,
            TokenType::Whitespace,
            TokenType::Keyword(Keyword::Instruction(10, "sub".to_string())),
            TokenType::Whitespace,
            TokenType::NumberLiteral(2),
        ]
    );
}

#[test]
fn first_unmatched_character_is_reported() {
    assert_eq!(language().digest_all("add 1\n  ?"), failure_at(2, 2));
    assert_eq!(language().digest_all("\u{e9}"), failure_at(1, 0));
    assert_eq!(language().digest_all("add -"), failure_at(1, 4));
    assert_eq!(language().digest_all("x\ny\n+"), failure_at(3, 0));
}

#[test]
fn tokens_tile_the_source() {
    let source = "loop: add 5 ; again\n  sub -3, \"text\" $x ! % _y9\n";
    let tokens = language().digest_all(source).unwrap();
    let mut at = 0;
    for token in &tokens {
        assert_eq!(token.from, at);
        assert!(token.from < token.to);
        at = token.to;
    }
    assert_eq!(at, source.len());
}

#[test]
fn spans_count_bytes() {
    let tokens = language().digest_all("\"\u{e9}\u{e9}\" x").unwrap();
    assert_eq!(
        tokens,
        vec![
            Token {
                from: 0,
                to: 6,
                token_type: TokenType::StringLiteral("\u{e9}\u{e9}".to_string()),
            },
            Token { from: 6, to: 7, token_type: TokenType::Whitespace },
            Token { from: 7, to: 8, token_type: TokenType::Symbol("x".to_string()) },
        ]
    );
}

#[test]
fn span_is_the_text_of_the_token() {
    let source = "; caf\u{e9} \u{20ac}\nadd \"\u{1f600}\"\u{a0}_x1 -42";
    let tokens = language().digest_all(source).unwrap();
    let texts: Vec<&str> = tokens.iter().map(|token| &source[token.from..token.to]).collect();
    assert_eq!(
        texts,
        vec!["; caf\u{e9} \u{20ac}\n", "add", " ", "\"\u{1f600}\"", "\u{a0}", "_x1", " ", "-42"]
    );
    assert_eq!(tokens.last().unwrap().to, source.len());
}

#[test]
fn position_is_that_of_a_byte_offset() {
    let text = "\u{e9}\nx";
    assert_eq!(FilePosition::from_index(text, 0), FilePosition { line: 1, character: 0 });
    assert_eq!(FilePosition::from_index(text, 1), FilePosition { line: 1, character: 1 });
    assert_eq!(FilePosition::from_index(text, 2), FilePosition { line: 1, character: 1 });
    assert_eq!(FilePosition::from_index(text, 3), FilePosition { line: 2, character: 0 });
    assert_eq!(FilePosition::from_index(text, 4), FilePosition { line: 2, character: 1 });
    assert_eq!(FilePosition::from_index(text, 9), FilePosition { line: 2, character: 1 });
    assert_eq!(
        FilePosition::from_index("\u{1f600}\u{20ac}a\n\u{e9}b", 11),
        FilePosition { line: 2, character: 1 }
    );
}

#[test]
fn failure_after_wide_characters_counts_characters_in_the_column() {
    assert_eq!(language().digest_all("\"\u{e9}\u{e9}\" ?"), failure_at(1, 5));
    assert_eq!(language().digest_all("; \u{20ac}\n\"\u{e9}\"?"), failure_at(2, 3));
}

#[test]
fn token_types_compare_by_text() {
    let first = TokenType::Symbol("a".to_string());
    assert!(first.same_as(&TokenType::Symbol("a".to_string())));
    assert!(!first.same_as(&TokenType::Symbol("b".to_string())));
    assert!(!first.same_as(&TokenType::StringLiteral("a".to_string())));
    assert!(TokenType::Keyword(Keyword::Instruction(0, "add".to_string()))
        .same_as(&TokenType::Keyword(Keyword::Instruction(0, "add".to_string()))));
    assert!(!TokenType::Keyword(Keyword::Instruction(0, "add".to_string()))
        .same_as(&TokenType::Keyword(Keyword::Instruction(10, "add".to_string()))));
    assert!(!TokenType::Keyword(Keyword::End).same_as(&TokenType::Keyword(Keyword::Macro)));
    assert!(TokenType::Char(Char::Bang).is_mark(Char::Bang));
    assert!(!TokenType::Char(Char::Bang).is_mark(Char::Comma));
    assert!(TokenType::Whitespace.is_whitespace());
    assert!(!TokenType::NumberLiteral(0).is_whitespace());
    assert_eq!(first.clone(), first);
}
