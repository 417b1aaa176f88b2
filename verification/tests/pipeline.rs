use asm_frontend::language::make_tokenizer;
use asm_frontend::microcode::keywords_from_microcode;
use asm_frontend::parser::{
    AstNode, Expression, IncludeParser, Instruction, Parser, ParserError, ProgramParser,
    Statement, strip_whitespace,
};
use asm_frontend::resolver::{resolve, ResolveError, ResolvedProgram};
use asm_frontend::tokenizer::{
    FilePosition, Keyword, Token, TokenType, Tokenizer, TokenizerError,
};

const MICROCODE: &str = "8\n16\nNOP\nLDA\nADD\nSUB\nSTA\nJMP\nHLT\n";

const SOURCE: &str = "; count down from ten\n%define count 10\nloop:\n    lda count\n    sub 1\n    jmp loop\n    hlt 0\n";

fn assemble(microcode: &str, source: &str) -> Result<ResolvedProgram, String> {
    let tokenizer = make_tokenizer(keywords_from_microcode(microcode));
    let tokens = tokenizer
        .digest_all(source)
        .map_err(|error| format!("{:?}", error))?;
    let program = ProgramParser {}
        .digest_all(&tokens)
        .map_err(|error| format!("{:?}", error))?;
    resolve(program).map_err(|error| format!("{:?}", error))
}

#[test]
fn test_main() {
    let lang_tok = make_tokenizer(keywords_from_microcode(MICROCODE));

    let tokens = lang_tok.digest_all(SOURCE);

    match tokens {
        Ok(v) => println!("tokens: {:?}", &v),
        Err(err) => println!("error: {:?}", &err),
    }
}

#[test]
fn sample_source_is_cut_into_tokens() {
    let tokenizer = make_tokenizer(keywords_from_microcode(MICROCODE));
    let tokens = tokenizer.digest_all(SOURCE).unwrap();
    assert_eq!(tokens.first().unwrap().from, 0);
    assert_eq!(tokens.last().unwrap().to, SOURCE.len());
    assert_eq!(tokens[0].token_type, TokenType::Whitespace);
    assert_eq!(tokens[0].to, 22);
}

#[test]
fn sample_source_resolves() {
    let resolved = assemble(MICROCODE, SOURCE).unwrap();
    assert_eq!(resolved.instructions, vec![(10, 10), (30, 1), (50, 0), (60, 0)]);
    assert_eq!(resolved.symbols, vec![("loop".to_string(), 0)]);
}

#[test]
fn add_five_tokens() {
    let tokenizer = make_tokenizer(keywords_from_microcode("99\nadd\nsub\n"));
    let tokens = tokenizer.digest_all("add 5").unwrap();
    assert_eq!(
        tokens,
        vec![
            Token {
                from: 0,
                to: 3,
                token_type: TokenType::Keyword(Keyword::Instruction(0, "add".to_string())),
            },
            Token { from: 3, to: 4, token_type: TokenType::Whitespace },
            Token { from: 4, to: 5, token_type: TokenType::NumberLiteral(5) },
        ]
    );
}

#[test]
fn add_five_parses_and_resolves() {
    let tokenizer = make_tokenizer(keywords_from_microcode("99\nadd\nsub\n"));
    let tokens = tokenizer.digest_all("add 5").unwrap();
    let program = ProgramParser {}.digest_all(&tokens).unwrap();
    assert_eq!(
        program,
        AstNode::Program(vec![AstNode::Statement(Statement::Instruction(
            Instruction::Named(0, "add".to_string()),
            Expression::Value(5),
        ))])
    );
    let resolved = resolve(program).unwrap();
    assert_eq!(resolved.instructions, vec![(0, 5)]);
    assert!(resolved.symbols.is_empty());
}

#[test]
fn second_mnemonic_has_opcode_ten() {
    let resolved = assemble("99\nadd\nsub\n", "sub 3 add 4").unwrap();
    assert_eq!(resolved.instructions, vec![(10, 3), (0, 4)]);
}

#[test]
fn inclusion_takes_three_significant_tokens() {
    let tokenizer = make_tokenizer(keywords_from_microcode("99\nadd\nsub\n"));
    let tokens = tokenizer.digest_all("%include \"foo.asm\"").unwrap();
    assert_eq!(tokens.len(), 4);
    let significant = strip_whitespace(&tokens);
    assert_eq!(significant.len(), 3);
    let found = IncludeParser {}.digest(&significant).unwrap();
    assert_eq!(found.length, 3);
    assert_eq!(found.node, AstNode::Include("foo.asm".to_string()));
    assert_eq!(
        IncludeParser {}.digest_all(&tokens),
        Ok(AstNode::Include("foo.asm".to_string()))
    );
}

#[test]
fn brackets_are_no_tokens_of_the_language() {
    let tokenizer = make_tokenizer(keywords_from_microcode("99\nadd\nsub\n"));
    assert_eq!(
        tokenizer.digest_all("(1+2"),
        Err(TokenizerError::UnableToParseToken(FilePosition { line: 1, character: 0 }))
    );
}

#[test]
fn unspliced_inclusion_is_not_resolved() {
    assert_eq!(
        assemble("add\n", "%include \"foo.asm\" add 1"),
        Err(format!("{:?}", ResolveError::UnresolvedInclude("foo.asm".to_string())))
    );
}

#[test]
fn program_with_define_label_and_macro() {
    let source = "%define base 100\n\
                  macro twice! $x\n\
                      add $x\n\
                      add $x\n\
                  end\n\
                  start:\n\
                      twice! base\n\
                  done:\n\
                      jmp start\n\
                      jmp done\n";
    let resolved = assemble("add\njmp\n", source).unwrap();
    assert_eq!(resolved.instructions, vec![(0, 100), (0, 100), (10, 0), (10, 2)]);
    assert_eq!(
        resolved.symbols,
        vec![("start".to_string(), 0), ("done".to_string(), 2)]
    );
}

#[test]
fn keyword_wins_over_longer_symbol() {
    let tokenizer = make_tokenizer(keywords_from_microcode("add\n"));
    let tokens = tokenizer.digest_all("address").unwrap();
    assert_eq!(
        tokens,
        vec![
            Token {
                from: 0,
                to: 3,
                token_type: TokenType::Keyword(Keyword::Instruction(0, "add".to_string())),
            },
            Token { from: 3, to: 7, token_type: TokenType::Symbol("ress".to_string()) },
        ]
    );
}

#[test]
fn leftover_tokens_are_a_mismatch() {
    let tokenizer = make_tokenizer(keywords_from_microcode("add\n"));
    let tokens = tokenizer.digest_all("%include \"a\" add 1").unwrap();
    assert!(matches!(
        IncludeParser {}.digest_all(&tokens),
        Err(ParserError::Default(_))
    ));
}

#[test]
fn source_of_plain_instructions_gives_one_pair_each() {
    for count in [0usize, 1, 5, 40] {
        let source: String = (0..count).map(|index| format!("sub {}\n7 {}\n", index, index)).collect();
        let resolved = assemble("add\nsub\n", &source).unwrap();
        assert_eq!(resolved.instructions.len(), 2 * count);
        for index in 0..count {
            assert_eq!(resolved.instructions[2 * index], (10, index as i64));
            assert_eq!(resolved.instructions[2 * index + 1], (7, index as i64));
        }
        assert!(resolved.symbols.is_empty());
    }
}

#[test]
fn source_with_a_label_twice_is_a_duplicate() {
    assert_eq!(
        assemble("add\n", "a:\nadd 1\na:\nadd 2"),
        Err(format!("{:?}", ResolveError::DuplicateLabel("a".to_string())))
    );
}

#[test]
fn source_with_a_call_equals_source_with_the_body() {
    let called = "macro step! $n\n add $n\n jmp 2\nend\nadd 0\nstep! 4\nlast:\njmp last\n";
    let inline = "add 0\nadd 4\njmp 2\nlast:\njmp last\n";
    let first = assemble("add\njmp\n", called).unwrap();
    let second = assemble("add\njmp\n", inline).unwrap();
    assert_eq!(first, second);
    assert_eq!(first.instructions, vec![(0, 0), (0, 4), (10, 2), (10, 3)]);
    assert_eq!(first.symbols, vec![("last".to_string(), 3)]);
}
