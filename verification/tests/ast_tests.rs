use asm_frontend::parser::{Expression, Instruction};
use asm_frontend::tokenizer::{Keyword, Operator, StringTokenizer, Token, TokenType};

fn value(number: i64) -> Expression {
    Expression::Value(number)
}

#[test]
fn binary_builds_the_variant_of_its_operator() {
    assert_eq!(
        Expression::binary(Operator::Add, value(1), value(2)),
        Expression::Add(Box::new(value(1)), Box::new(value(2)))
    );
    assert_eq!(
        Expression::binary(Operator::Sub, value(1), value(2)),
        Expression::Sub(Box::new(value(1)), Box::new(value(2)))
    );
    assert_eq!(
        Expression::binary(Operator::Mult, value(1), value(2)),
        Expression::Mult(Box::new(value(1)), Box::new(value(2)))
    );
    assert_eq!(
        Expression::binary(Operator::Div, value(1), value(2)),
        Expression::Div(Box::new(value(1)), Box::new(value(2)))
    );
}

#[test]
fn clone_of_an_expression_is_equal_to_it() {
    let expression = Expression::binary(
        Operator::Mult,
        Expression::binary(Operator::Add, value(1), Expression::SymbolValue("x".to_string())),
        Expression::binary(Operator::Div, value(-4), Expression::SymbolValue("$p".to_string())),
    );
    assert_eq!(expression.clone(), expression);
}

#[test]
fn instruction_gives_its_opcode() {
    assert_eq!(Instruction::Named(30, "sub".to_string()).opcode(), 30);
    assert_eq!(Instruction::Number(7).opcode(), 7);
    let named = Instruction::Named(30, "sub".to_string());
    assert_eq!(named.clone(), named);
}

#[test]
fn clone_of_a_token_is_equal_to_it() {
    let token = Token {
        from: 3,
        to: 6,
        token_type: TokenType::Keyword(Keyword::Instruction(20, "jmp".to_string())),
    };
    assert_eq!(token.clone(), token);
    let literal = StringTokenizer {
        string: "jmp".to_string(),
        token: TokenType::StringLiteral("text".to_string()),
    };
    assert_eq!(literal.clone(), literal);
    assert_eq!(Keyword::End.clone(), Keyword::End);
}
