//! The parsers: one per rule of the grammar, and the combinators that
//! repeat a parser or put parsers in a row.
//!
//! A parser reads the start of a sequence of tokens and says how many it
//! took and what they stand for.  It does not go back: the first rule that
//! fails decides the failure.
use vstd::prelude::*;
pub use crate::ast::{AstNode, Expression, Instruction, Statement};
use crate::ast::{expression_models, lemma_ast_models, lemma_ast_models_push, names_of,
    node_models, statement_models, AstModel, ExpressionModel, StatementModel};
use crate::grammar::{arguments_from, arguments_parse, as_collection, as_node, body_parse,
    chain_from, closing_bracket, define_parse, expression_at, expression_parse, group_chain,
    group_step, include_parse, instruction_parse, is_end, item_parse, items_from, macro_parse,
    operand_at, parameter_name, parameters_from, parameters_parse, program_parse, rest_of,
    sequence_from, significant, significant_before, starts_argument, statement_in,
    statement_parse, statement_rule, statements_in, until_from, whole, Grouping, Link,
    ParseFailure, Parsed, Rule};
use crate::token::{kinds_of, spans_of, BracketType, Brace, Char, Keyword, Operator, Token,
    TokenKind, TokenType};
use vstd::slice::slice_subrange;
use vstd::string::StringExecFns;

verus! {

/// Why a parser gave up.
#[derive(Debug, PartialEq, Eq)]
pub enum ParserError {
    /// The tokens do not fit the rule; the text says which rule.
    Default(String),
    /// An opening bracket has no closing bracket.
    UnbalancedBracketsError,
    /// The tokens ran out before a block was closed.
    UnterminatedBlockError,
}

impl View for ParserError {
    type V = ParseFailure;

    open spec fn view(&self) -> ParseFailure {
        match *self {
            ParserError::Default(_) => ParseFailure::Mismatch,
            ParserError::UnbalancedBracketsError => ParseFailure::UnbalancedBrackets,
            ParserError::UnterminatedBlockError => ParseFailure::UnterminatedBlock,
        }
    }
}

/// What a parser made of the start of its tokens: how many it took, and the
/// node they stand for.
#[derive(Debug, PartialEq, Eq)]
pub struct ParserResult {
    pub length: usize,
    pub node: AstNode,
}

/// Model of what `digest` returns.
pub open spec fn parse_view(result: Result<ParserResult, ParserError>) -> Parsed<AstModel> {
    match result {
        Ok(found) => Ok((found.length as int, found.node@)),
        Err(error) => Err(error@),
    }
}

/// Model of what `digest_all` returns.
pub open spec fn node_view(result: Result<AstNode, ParserError>) -> Result<AstModel, ParseFailure> {
    match result {
        Ok(node) => Ok(node@),
        Err(error) => Err(error@),
    }
}

/// Whatever a parser takes, it takes from the tokens it was given.
pub open spec fn parse_in_bounds<T>(parsed: Parsed<T>, count: int) -> bool {
    parsed matches Ok((length, _)) ==> 0 <= length <= count
}

/// A parser: something that reads a node from the start of a sequence of
/// tokens.
pub trait Parser: Sized {
    /// What the parser makes of `tokens`.
    spec fn parsed(&self, tokens: Seq<TokenKind>) -> Parsed<AstModel>;

    /// Reads one node from the start of `tokens`, which hold no white space.
    fn digest(&self, tokens: &[TokenType]) -> (result: Result<ParserResult, ParserError>)
        ensures
            parse_view(result) == self.parsed(kinds_of(tokens@)),
            parse_in_bounds(self.parsed(kinds_of(tokens@)), tokens@.len() as int),
    ;

    /// Reads one node from all of `tokens`, white space aside: it is a
    /// mismatch if the parser leaves tokens over.
    fn digest_all(&self, tokens: &[Token]) -> (result: Result<AstNode, ParserError>)
        ensures
            node_view(result) == whole(
                self.parsed(significant(spans_of(tokens@))),
                significant(spans_of(tokens@)).len() as int,
            ),
    {
        let kept = strip_whitespace(tokens);
        match self.digest(kept.as_slice()) {
            Ok(found) => {
                if found.length == kept.len() {
                    Ok(found.node)
                } else {
                    Err(mismatch("tokens are left over"))
                }
            },
            Err(error) => Err(error),
        }
    }
}

/// The tokens of `tokens` that are no white space, in order.
pub fn strip_whitespace(tokens: &[Token]) -> (kept: Vec<TokenType>)
    ensures
        kinds_of(kept@) == significant(spans_of(tokens@)),
{
    let mut kept: Vec<TokenType> = Vec::new();
    let mut i: usize = 0;
    proof {
        assert(kinds_of(kept@) =~= significant_before(spans_of(tokens@), 0));
    }
    while i < tokens.len()
        invariant
            i <= tokens@.len(),
            kinds_of(kept@) == significant_before(spans_of(tokens@), i as int),
        decreases tokens@.len() - i,
    {
        let ghost before = kinds_of(kept@);
        assert(spans_of(tokens@)[i as int] == tokens@[i as int]@);
        if !tokens[i].token_type.is_whitespace() {
            let copy = tokens[i].token_type.clone();
            kept.push(copy);
            proof {
                assert(kinds_of(kept@) =~= before.push(copy@));
            }
        }
        i = i + 1;
    }
    kept
}

fn mismatch(message: &str) -> (error: ParserError)
    ensures
        error matches ParserError::Default(description) && description@ == message@,
        error@ == ParseFailure::Mismatch,
{
    ParserError::Default(message.to_owned())
}

/// The kinds of a tail of the tokens are the tail of their kinds.
pub proof fn lemma_kinds_rest(tokens: Seq<TokenType>, at: int)
    requires
        0 <= at <= tokens.len(),
    ensures
        kinds_of(tokens.subrange(at, tokens.len() as int)) == rest_of(kinds_of(tokens), at),
{
    assert(kinds_of(tokens.subrange(at, tokens.len() as int)) =~= rest_of(kinds_of(tokens), at));
}

/// Model of a parsed expression.
pub open spec fn expression_view(result: Result<(usize, Expression), ParserError>) -> Parsed<
    ExpressionModel,
> {
    match result {
        Ok((end, expression)) => Ok((end as int, expression@)),
        Err(error) => Err(error@),
    }
}

/// Model of a parsed statement.
pub open spec fn statement_view(result: Result<(usize, Statement), ParserError>) -> Parsed<
    StatementModel,
> {
    match result {
        Ok((end, statement)) => Ok((end as int, statement@)),
        Err(error) => Err(error@),
    }
}

fn find_closing(tokens: &[TokenType], at: usize, to: usize) -> (found: Option<usize>)
    requires
        at <= to <= tokens@.len(),
    ensures
        match found {
            Some(close) => at <= close < to && closing_bracket(
                kinds_of(tokens@),
                at as int,
                to as int,
                0,
            ) == Some(close as int),
            None => closing_bracket(kinds_of(tokens@), at as int, to as int, 0) is None,
        },
{
    let ghost kinds = kinds_of(tokens@);
    let mut depth: usize = 0;
    let mut i: usize = at;
    while i < to
        invariant
            at <= i <= to <= tokens@.len(),
            depth <= i - at,
            kinds == kinds_of(tokens@),
            closing_bracket(kinds, i as int, to as int, depth as nat) == closing_bracket(
                kinds,
                at as int,
                to as int,
                0,
            ),
        decreases to - i,
    {
        assert(kinds[i as int] == tokens@[i as int]@);
        match &tokens[i] {
            TokenType::Brace(Brace::Round(BracketType::Opening)) => {
                depth = depth + 1;
            },
            TokenType::Brace(Brace::Round(BracketType::Closing)) => {
                if depth == 0 {
                    return Some(i);
                }
                depth = depth - 1;
            },
            _ => {},
        }
        i = i + 1;
    }
    None
}

fn parse_operand(tokens: &[TokenType], at: usize, to: usize) -> (result: Result<
    (usize, Expression),
    ParserError,
>)
    requires
        at <= to <= tokens@.len(),
    ensures
        expression_view(result) == operand_at(kinds_of(tokens@), at as int, to as int),
        result matches Ok((end, _)) ==> at < end <= to,
    decreases to - at, 0int,
{
    let ghost kinds = kinds_of(tokens@);
    if at >= to {
        return Err(mismatch("an operand is missing"));
    }
    assert(kinds[at as int] == tokens@[at as int]@);
    match &tokens[at] {
        TokenType::NumberLiteral(value) => Ok((at + 1, Expression::Value(*value))),
        TokenType::Symbol(name) => Ok((at + 1, Expression::SymbolValue(name.clone()))),
        TokenType::Char(Char::Dollar) => {
            if at + 1 < to {
                assert(kinds[at + 1] == tokens@[at + 1]@);
                match &tokens[at + 1] {
                    TokenType::Symbol(name) => {
                        let full = parameter(name);
                        Ok((at + 2, Expression::SymbolValue(full)))
                    },
                    _ => Err(mismatch("a parameter has no name")),
                }
            } else {
                Err(mismatch("a parameter has no name"))
            }
        },
        TokenType::Brace(Brace::Round(BracketType::Opening)) => {
            match find_closing(tokens, at + 1, to) {
                Some(close) => match parse_expression(tokens, at + 1, close) {
                    Ok((end, inner)) => {
                        if end == close {
                            Ok((close + 1, inner))
                        } else {
                            Err(mismatch("brackets hold more than an expression"))
                        }
                    },
                    Err(error) => Err(error),
                },
                None => Err(ParserError::UnbalancedBracketsError),
            }
        },
        _ => Err(mismatch("no operand begins here")),
    }
}

fn parameter(symbol: &String) -> (name: String)
    ensures
        name@ == parameter_name(symbol@),
{
    proof {
        reveal_strlit("$");
        assert("$"@ =~= seq!['$']);
    }
    String::from_str("$").concat(symbol.as_str())
}

/// Model of the state of the expression parser between two links.
pub open spec fn grouping_view(sum: Option<(Expression, Operator)>, product: Expression) -> Grouping {
    Grouping {
        sum: match sum {
            Some((left, operator)) => Some((left@, operator)),
            None => None,
        },
        product: product@,
    }
}

/// The operator at index `at`, if an operator stands there, before `to`.
pub open spec fn operator_ahead(tokens: Seq<TokenKind>, at: int, to: int) -> Option<Operator> {
    if 0 <= at < to <= tokens.len() {
        match tokens[at] {
            TokenKind::Operator(operator) => Some(operator),
            _ => None,
        }
    } else {
        None
    }
}

fn peek_operator(tokens: &[TokenType], at: usize, to: usize) -> (found: Option<Operator>)
    requires
        at <= to <= tokens@.len(),
    ensures
        found == operator_ahead(kinds_of(tokens@), at as int, to as int),
{
    if at < to {
        assert(kinds_of(tokens@)[at as int] == tokens@[at as int]@);
        match &tokens[at] {
            TokenType::Operator(operator) => Some(*operator),
            _ => None,
        }
    } else {
        None
    }
}

fn parse_expression(tokens: &[TokenType], at: usize, to: usize) -> (result: Result<
    (usize, Expression),
    ParserError,
>)
    requires
        at <= to <= tokens@.len(),
    ensures
        expression_view(result) == expression_at(kinds_of(tokens@), at as int, to as int),
        result matches Ok((end, _)) ==> at < end <= to,
    decreases to - at, 2int,
{
    let ghost kinds = kinds_of(tokens@);
    let (end, first) = match parse_operand(tokens, at, to) {
        Ok(found) => found,
        Err(error) => {
            return Err(error);
        },
    };
    let ghost first_model = first@;
    let ghost mut links: Seq<Link> = Seq::empty();
    let mut sum: Option<(Expression, Operator)> = None;
    let mut product: Expression = first;
    let mut i: usize = end;
    let mut pending = peek_operator(tokens, i, to);
    while pending.is_some()
        invariant
            at < end <= i <= to <= tokens@.len(),
            kinds == kinds_of(tokens@),
            pending == operator_ahead(kinds, i as int, to as int),
            operand_at(kinds, at as int, to as int) == Ok::<
                (int, ExpressionModel),
                ParseFailure,
            >((end as int, first_model)),
            chain_from(kinds, i as int, to as int, links) == chain_from(
                kinds,
                end as int,
                to as int,
                Seq::empty(),
            ),
            grouping_view(sum, product) == group_chain(first_model, links),
        decreases to - i,
    {
        let operator = pending.unwrap();
        match parse_operand(tokens, i + 1, to) {
            Ok((after, operand)) => {
                proof {
                    let link = (operator, operand@);
                    assert(links.push(link).drop_last() =~= links);
                    assert(group_chain(first_model, links.push(link)) == group_step(
                        group_chain(first_model, links),
                        link,
                    ));
                    links = links.push(link);
                }
                match operator {
                    Operator::Mult | Operator::Div => {
                        product = Expression::binary(operator, product, operand);
                    },
                    Operator::Add | Operator::Sub => {
                        let closed = match sum {
                            Some((left, joint)) => Expression::binary(joint, left, product),
                            None => product,
                        };
                        sum = Some((closed, operator));
                        product = operand;
                    },
                }
                i = after;
                pending = peek_operator(tokens, i, to);
            },
            Err(error) => {
                return Err(error);
            },
        }
    }
    let tree = match sum {
        Some((left, joint)) => Expression::binary(joint, left, product),
        None => product,
    };
    Ok((i, tree))
}

/// Reads an expression.
#[derive(Debug, Clone, Copy, PartialEq, Eq, Structural)]
pub struct ExpressionParser {}

impl Parser for ExpressionParser {
    open spec fn parsed(&self, tokens: Seq<TokenKind>) -> Parsed<AstModel> {
        match expression_parse(tokens) {
            Ok((length, expression)) => Ok((length, AstModel::Expression(expression))),
            Err(failure) => Err(failure),
        }
    }

    fn digest(&self, tokens: &[TokenType]) -> (result: Result<ParserResult, ParserError>) {
        match parse_expression(tokens, 0, tokens.len()) {
            Ok((length, expression)) => Ok(
                ParserResult { length, node: AstNode::Expression(expression) },
            ),
            Err(error) => Err(error),
        }
    }
}

/// Model of a parsed list of arguments.
pub open spec fn arguments_view(result: Result<(usize, Vec<Expression>), ParserError>) -> Parsed<
    Seq<ExpressionModel>,
> {
    match result {
        Ok((end, arguments)) => Ok((end as int, expression_models(arguments@))),
        Err(error) => Err(error@),
    }
}

/// Model of a parsed list of names.
pub open spec fn names_view(result: Result<(usize, Vec<String>), ParserError>) -> Parsed<
    Seq<Seq<char>>,
> {
    match result {
        Ok((end, names)) => Ok((end as int, names_of(names@))),
        Err(error) => Err(error@),
    }
}

fn begins_argument(tokens: &[TokenType]) -> (b: bool)
    ensures
        b == starts_argument(kinds_of(tokens@)),
{
    if tokens.len() == 0 {
        return false;
    }
    assert(kinds_of(tokens@)[0] == tokens@[0]@);
    match &tokens[0] {
        TokenType::NumberLiteral(_) => true,
        TokenType::Char(Char::Dollar) => true,
        TokenType::Brace(Brace::Round(BracketType::Opening)) => true,
        TokenType::Symbol(_) => {
            if tokens.len() > 1 {
                assert(kinds_of(tokens@)[1] == tokens@[1]@);
                !(tokens[1].is_mark(Char::Colon) || tokens[1].is_mark(Char::Bang))
            } else {
                true
            }
        },
        _ => false,
    }
}

fn parse_arguments(tokens: &[TokenType]) -> (result: Result<(usize, Vec<Expression>), ParserError>)
    ensures
        arguments_view(result) == arguments_parse(kinds_of(tokens@)),
        result matches Ok((length, _)) ==> length <= tokens@.len(),
{
    let ghost kinds = kinds_of(tokens@);
    let mut arguments: Vec<Expression> = Vec::new();
    proof {
        assert(expression_models(arguments@) =~= Seq::<ExpressionModel>::empty());
    }
    if !begins_argument(tokens) {
        return Ok((0, arguments));
    }
    let mut at: usize = 0;
    loop
        invariant
            at <= tokens@.len(),
            kinds == kinds_of(tokens@),
            starts_argument(kinds),
            arguments_from(kinds, at as int, expression_models(arguments@)) == arguments_from(
                kinds,
                0,
                Seq::empty(),
            ),
        decreases tokens@.len() - at,
    {
        let rest = slice_subrange(tokens, at, tokens.len());
        proof {
            lemma_kinds_rest(tokens@, at as int);
        }
        match parse_expression(rest, 0, rest.len()) {
            Ok((length, argument)) => {
                let ghost before = expression_models(arguments@);
                let next = at + length;
                arguments.push(argument);
                proof {
                    assert(expression_models(arguments@) =~= before.push(argument@));
                }
                if next < tokens.len() {
                    assert(kinds[next as int] == tokens@[next as int]@);
                }
                if next < tokens.len() && tokens[next].is_mark(Char::Comma) {
                    at = next + 1;
                } else {
                    return Ok((next, arguments));
                }
            },
            Err(error) => {
                return Err(error);
            },
        }
    }
}

fn parse_instruction(instruction: Instruction, tokens: &[TokenType]) -> (result: Result<
    (usize, Statement),
    ParserError,
>)
    requires
        tokens@.len() > 0,
    ensures
        statement_view(result) == instruction_parse(instruction@, kinds_of(tokens@)),
        result matches Ok((length, _)) ==> 0 < length <= tokens@.len(),
{
    let rest = slice_subrange(tokens, 1, tokens.len());
    proof {
        lemma_kinds_rest(tokens@, 1);
    }
    match parse_expression(rest, 0, rest.len()) {
        Ok((length, operand)) => Ok((1 + length, Statement::Instruction(instruction, operand))),
        Err(error) => Err(error),
    }
}

fn parse_statement(tokens: &[TokenType]) -> (result: Result<(usize, Statement), ParserError>)
    ensures
        statement_view(result) == statement_parse(kinds_of(tokens@)),
        result matches Ok((length, _)) ==> 0 < length <= tokens@.len(),
{
    let ghost kinds = kinds_of(tokens@);
    if tokens.len() == 0 {
        return Err(mismatch("a statement is missing"));
    }
    assert(kinds[0] == tokens@[0]@);
    if tokens.len() > 1 {
        assert(kinds[1] == tokens@[1]@);
    }
    match &tokens[0] {
        TokenType::Symbol(name) => {
            if tokens.len() > 1 && tokens[1].is_mark(Char::Colon) {
                Ok((2, Statement::Label(name.clone())))
            } else if tokens.len() > 1 && tokens[1].is_mark(Char::Bang) {
                let rest = slice_subrange(tokens, 2, tokens.len());
                proof {
                    lemma_kinds_rest(tokens@, 2);
                }
                match parse_arguments(rest) {
                    Ok((length, arguments)) => Ok(
                        (2 + length, Statement::MacroCall(name.clone(), arguments)),
                    ),
                    Err(error) => Err(error),
                }
            } else {
                Err(mismatch("a symbol begins neither a label nor a macro call"))
            }
        },
        TokenType::Keyword(Keyword::Instruction(opcode, mnemonic)) => parse_instruction(
            Instruction::Named(*opcode, mnemonic.clone()),
            tokens,
        ),
        TokenType::NumberLiteral(opcode) => {
            if *opcode >= 0 {
                parse_instruction(Instruction::Number(*opcode as u64), tokens)
            } else {
                Err(mismatch("an opcode is negative"))
            }
        },
        _ => Err(mismatch("no statement begins here")),
    }
}

/// Reads a statement: a label, an instruction or a macro call.
#[derive(Debug, Clone, Copy, PartialEq, Eq, Structural)]
pub struct StatementParser {}

impl Parser for StatementParser {
    open spec fn parsed(&self, tokens: Seq<TokenKind>) -> Parsed<AstModel> {
        as_node(statement_parse(tokens))
    }

    fn digest(&self, tokens: &[TokenType]) -> (result: Result<ParserResult, ParserError>) {
        match parse_statement(tokens) {
            Ok((length, statement)) => Ok(
                ParserResult { length, node: AstNode::Statement(statement) },
            ),
            Err(error) => Err(error),
        }
    }
}

/// Reads `%include` and a path.
#[derive(Debug, Clone, Copy, PartialEq, Eq, Structural)]
pub struct IncludeParser {}

impl Parser for IncludeParser {
    open spec fn parsed(&self, tokens: Seq<TokenKind>) -> Parsed<AstModel> {
        include_parse(tokens)
    }

    fn digest(&self, tokens: &[TokenType]) -> (result: Result<ParserResult, ParserError>) {
        let ghost kinds = kinds_of(tokens@);
        if tokens.len() >= 3 {
            assert(kinds[0] == tokens@[0]@ && kinds[1] == tokens@[1]@ && kinds[2] == tokens@[2]@);
        }
        if tokens.len() >= 3 && tokens[0].is_mark(Char::Percent) && tokens[1].same_as(
            &TokenType::Keyword(Keyword::Include),
        ) {
            match &tokens[2] {
                TokenType::StringLiteral(path) => Ok(
                    ParserResult { length: 3, node: AstNode::Include(path.clone()) },
                ),
                _ => Err(mismatch("a path is missing")),
            }
        } else {
            Err(mismatch("not an inclusion"))
        }
    }
}

/// Reads `%define`, a name and an expression.
#[derive(Debug, Clone, Copy, PartialEq, Eq, Structural)]
pub struct DefineParser {}

impl Parser for DefineParser {
    open spec fn parsed(&self, tokens: Seq<TokenKind>) -> Parsed<AstModel> {
        define_parse(tokens)
    }

    fn digest(&self, tokens: &[TokenType]) -> (result: Result<ParserResult, ParserError>) {
        let ghost kinds = kinds_of(tokens@);
        if tokens.len() >= 3 {
            assert(kinds[0] == tokens@[0]@ && kinds[1] == tokens@[1]@ && kinds[2] == tokens@[2]@);
        }
        if tokens.len() >= 3 && tokens[0].is_mark(Char::Percent) && tokens[1].same_as(
            &TokenType::Keyword(Keyword::Define),
        ) {
            match &tokens[2] {
                TokenType::Symbol(name) => {
                    let rest = slice_subrange(tokens, 3, tokens.len());
                    proof {
                        lemma_kinds_rest(tokens@, 3);
                    }
                    match parse_expression(rest, 0, rest.len()) {
                        Ok((length, value)) => Ok(
                            ParserResult {
                                length: 3 + length,
                                node: AstNode::Define(name.clone(), value),
                            },
                        ),
                        Err(error) => Err(error),
                    }
                },
                _ => Err(mismatch("a name is missing")),
            }
        } else {
            Err(mismatch("not a definition"))
        }
    }
}

/// A test on the next token that ends a repetition.
pub trait StopRule: Sized {
    /// Whether a token of this kind ends the repetition.
    spec fn stops(&self, kind: TokenKind) -> bool;

    /// Tests whether `token` ends the repetition.
    fn test(&self, token: &TokenType) -> (b: bool)
        ensures
            b == self.stops(token@),
    ;
}

/// Ends a repetition before a token of one given kind.
#[derive(Debug, PartialEq, Eq)]
pub struct StopAt {
    pub token: TokenType,
}

impl StopRule for StopAt {
    open spec fn stops(&self, kind: TokenKind) -> bool {
        kind == self.token@
    }

    fn test(&self, token: &TokenType) -> (b: bool) {
        token.same_as(&self.token)
    }
}

/// The rule that a parser follows.
pub open spec fn rule_of<T: Parser>(parser: T) -> Rule {
    |tokens: Seq<TokenKind>| parser.parsed(tokens)
}

/// The test that a stop rule makes.
pub open spec fn stop_of<S: StopRule>(stop: S) -> spec_fn(TokenKind) -> bool {
    |kind: TokenKind| stop.stops(kind)
}

/// Where a repetition ends there is a token that meets the stop, and the
/// nodes that were there before are still its first nodes.
pub proof fn lemma_until_stops(
    inner: Rule,
    stop: spec_fn(TokenKind) -> bool,
    tokens: Seq<TokenKind>,
    at: int,
    done: Seq<AstModel>,
)
    ensures
        until_from(inner, stop, tokens, at, done) matches Ok((end, nodes)) ==> at <= end
            < tokens.len() && stop(tokens[end]),
    decreases tokens.len() - at,
{
    if 0 <= at < tokens.len() && !stop(tokens[at]) {
        match inner(rest_of(tokens, at)) {
            Ok((length, node)) => {
                if 0 < length <= tokens.len() - at {
                    lemma_until_stops(inner, stop, tokens, at + length, done.push(node));
                }
            },
            Err(_) => {},
        }
    }
}

/// What holds of every node that the inner rule yields, and of the nodes
/// that were there before, holds of every node of a repetition.
pub proof fn lemma_until_nodes(
    inner: Rule,
    stop: spec_fn(TokenKind) -> bool,
    tokens: Seq<TokenKind>,
    at: int,
    done: Seq<AstModel>,
    holds: spec_fn(AstModel) -> bool,
)
    requires
        forall|rest: Seq<TokenKind>| #[trigger]
            inner(rest) matches Ok((_, node)) ==> holds(node),
        forall|i: int| 0 <= i < done.len() ==> holds(#[trigger] done[i]),
    ensures
        until_from(inner, stop, tokens, at, done) matches Ok((_, nodes)) ==> forall|i: int|
            0 <= i < nodes.len() ==> holds(#[trigger] nodes[i]),
    decreases tokens.len() - at,
{
    if 0 <= at < tokens.len() && !stop(tokens[at]) {
        match inner(rest_of(tokens, at)) {
            Ok((length, node)) => {
                if 0 < length <= tokens.len() - at {
                    let longer = done.push(node);
                    assert forall|i: int| 0 <= i < longer.len() implies holds(
                        #[trigger] longer[i],
                    ) by {
                        if i < done.len() {
                            assert(longer[i] == done[i]);
                        }
                    }
                    lemma_until_nodes(inner, stop, tokens, at + length, longer, holds);
                }
            },
            Err(_) => {},
        }
    }
}

/// Repeats a parser until the next token meets a stop rule; yields the
/// nodes it read, as a collection.  The token that meets the stop is not
/// taken.
pub struct ParserUntil<T: Parser, S: StopRule> {
    pub parser: T,
    pub stop_cb: S,
}

impl<T: Parser, S: StopRule> ParserUntil<T, S> {
    /// The repetition of `parser` up to the stop `stop_cb`.
    pub fn new(stop_cb: S, parser: T) -> (made: Self)
        ensures
            made.parser == parser,
            made.stop_cb == stop_cb,
    {
        Self { stop_cb, parser }
    }
}

impl<T: Parser, S: StopRule> Parser for ParserUntil<T, S> {
    open spec fn parsed(&self, tokens: Seq<TokenKind>) -> Parsed<AstModel> {
        as_collection(
            until_from(rule_of(self.parser), stop_of(self.stop_cb), tokens, 0, Seq::empty()),
        )
    }

    fn digest(&self, tokens: &[TokenType]) -> (result: Result<ParserResult, ParserError>) {
        let ghost kinds = kinds_of(tokens@);
        let ghost inner = rule_of(self.parser);
        let ghost stop = stop_of(self.stop_cb);
        let mut nodes: Vec<AstNode> = Vec::new();
        let mut length: usize = 0;
        proof {
            lemma_ast_models(nodes@, 0);
            assert(node_models(nodes@) =~= Seq::<AstModel>::empty());
            lemma_until_stops(inner, stop, kinds, 0, Seq::empty());
        }
        loop
            invariant
                length <= tokens@.len(),
                kinds == kinds_of(tokens@),
                inner == rule_of(self.parser),
                stop == stop_of(self.stop_cb),
                until_from(inner, stop, kinds, length as int, node_models(nodes@)) == until_from(
                    inner,
                    stop,
                    kinds,
                    0,
                    Seq::empty(),
                ),
                parse_in_bounds(self.parsed(kinds), tokens@.len() as int),
            decreases tokens@.len() - length,
        {
            if length >= tokens.len() {
                return Err(ParserError::UnterminatedBlockError);
            }
            assert(kinds[length as int] == tokens@[length as int]@);
            if self.stop_cb.test(&tokens[length]) {
                return Ok(ParserResult { length, node: AstNode::UntilCollection(nodes) });
            }
            let rest = slice_subrange(tokens, length, tokens.len());
            proof {
                lemma_kinds_rest(tokens@, length as int);
                assert(inner(rest_of(kinds, length as int)) == self.parser.parsed(
                    kinds_of(rest@),
                ));
            }
            match self.parser.digest(rest) {
                Ok(found) => {
                    if found.length == 0 {
                        return Err(mismatch("a repeated parser took no token"));
                    }
                    proof {
                        lemma_ast_models_push(nodes@, found.node);
                    }
                    length = length + found.length;
                    nodes.push(found.node);
                },
                Err(error) => {
                    return Err(error);
                },
            }
        }
    }
}

/// One parser of a row, and whether its node is kept.
pub struct SequenceStep<T: Parser> {
    pub parser: T,
    pub keep: bool,
}

/// Runs parsers in a row, each where the one before it ended; yields the
/// nodes of the steps that are marked, as a collection.  The first failure
/// is the failure of the row.
pub struct ParserSequence<T: Parser> {
    pub steps: Vec<SequenceStep<T>>,
}

/// The rules of the steps of a row, each with its mark.
pub open spec fn rules_of<T: Parser>(steps: Seq<SequenceStep<T>>) -> Seq<(Rule, bool)> {
    steps.map_values(|step: SequenceStep<T>| (rule_of(step.parser), step.keep))
}

impl<T: Parser> Parser for ParserSequence<T> {
    open spec fn parsed(&self, tokens: Seq<TokenKind>) -> Parsed<AstModel> {
        as_collection(sequence_from(rules_of(self.steps@), 0, tokens, 0, Seq::empty()))
    }

    fn digest(&self, tokens: &[TokenType]) -> (result: Result<ParserResult, ParserError>) {
        let ghost kinds = kinds_of(tokens@);
        let ghost rules = rules_of(self.steps@);
        let mut nodes: Vec<AstNode> = Vec::new();
        let mut length: usize = 0;
        let mut index: usize = 0;
        proof {
            lemma_ast_models(nodes@, 0);
            assert(node_models(nodes@) =~= Seq::<AstModel>::empty());
        }
        while index < self.steps.len()
            invariant
                index <= self.steps@.len(),
                length <= tokens@.len(),
                kinds == kinds_of(tokens@),
                rules == rules_of(self.steps@),
                sequence_from(
                    rules,
                    index as int,
                    kinds,
                    length as int,
                    node_models(nodes@),
                ) == sequence_from(rules, 0, kinds, 0, Seq::empty()),
            decreases self.steps@.len() - index,
        {
            let step = &self.steps[index];
            let rest = slice_subrange(tokens, length, tokens.len());
            proof {
                lemma_kinds_rest(tokens@, length as int);
                assert(rules[index as int] == (rule_of(step.parser), step.keep));
                assert((rules[index as int].0)(rest_of(kinds, length as int))
                    == step.parser.parsed(kinds_of(rest@)));
            }
            match step.parser.digest(rest) {
                Ok(found) => {
                    length = length + found.length;
                    if step.keep {
                        proof {
                            lemma_ast_models_push(nodes@, found.node);
                        }
                        nodes.push(found.node);
                    }
                },
                Err(error) => {
                    return Err(error);
                },
            }
            index = index + 1;
        }
        Ok(ParserResult { length, node: AstNode::UntilCollection(nodes) })
    }
}

fn parse_parameters(tokens: &[TokenType], at: usize) -> (result: Result<
    (usize, Vec<String>),
    ParserError,
>)
    requires
        at <= tokens@.len(),
    ensures
        names_view(result) == parameters_parse(kinds_of(tokens@), at as int),
        result matches Ok((end, _)) ==> at <= end <= tokens@.len(),
{
    let ghost kinds = kinds_of(tokens@);
    let mut names: Vec<String> = Vec::new();
    proof {
        assert(names_of(names@) =~= Seq::<Seq<char>>::empty());
    }
    if at < tokens.len() {
        assert(kinds[at as int] == tokens@[at as int]@);
    }
    if !(at < tokens.len() && tokens[at].is_mark(Char::Dollar)) {
        return Ok((at, names));
    }
    let mut i: usize = at;
    loop
        invariant
            at <= i <= tokens@.len(),
            kinds == kinds_of(tokens@),
            at < tokens@.len(),
            kinds[at as int] == TokenKind::Punctuation(Char::Dollar),
            parameters_from(kinds, i as int, names_of(names@)) == parameters_from(
                kinds,
                at as int,
                Seq::empty(),
            ),
        decreases tokens@.len() - i,
    {
        if tokens.len() - i > 1 {
            assert(kinds[i as int] == tokens@[i as int]@);
            assert(kinds[i + 1] == tokens@[i + 1]@);
        }
        if tokens.len() - i > 1 && tokens[i].is_mark(Char::Dollar) {
            match &tokens[i + 1] {
                TokenType::Symbol(symbol) => {
                    let ghost before = names_of(names@);
                    let name = parameter(symbol);
                    names.push(name);
                    proof {
                        assert(names_of(names@) =~= before.push(parameter_name(symbol@)));
                    }
                    if tokens.len() - i > 2 {
                        assert(kinds[i + 2] == tokens@[i + 2]@);
                    }
                    if tokens.len() - i > 2 && tokens[i + 2].is_mark(Char::Comma) {
                        i = i + 3;
                    } else {
                        return Ok((i + 2, names));
                    }
                },
                _ => {
                    return Err(mismatch("a parameter has no name"));
                },
            }
        } else {
            return Err(mismatch("a parameter is missing"));
        }
    }
}

/// The statements that a sequence of statement nodes holds.
fn statements_of(nodes: Vec<AstNode>) -> (statements: Vec<Statement>)
    requires
        forall|i: int| 0 <= i < nodes@.len() ==> (#[trigger] nodes@[i])@ is Statement,
    ensures
        statement_models(statements@) == statements_in(node_models(nodes@)),
{
    let ghost all = nodes@;
    let mut statements: Vec<Statement> = Vec::new();
    for node in it: nodes
        invariant
            it.seq() == all,
            forall|i: int| 0 <= i < all.len() ==> (#[trigger] all[i])@ is Statement,
            statements@.len() == it.index(),
            forall|k: int|
                0 <= k < statements@.len() ==> (#[trigger] statements@[k])@ == statement_in(
                    all[k]@,
                ),
    {
        assert(node@ is Statement);
        match node {
            AstNode::Statement(statement) => {
                statements.push(statement);
            },
            _ => {},
        }
    }
    proof {
        lemma_ast_models(all, all.len() as int);
        assert(statement_models(statements@) =~= statements_in(node_models(all)));
    }
    statements
}

/// Reads the declaration of a macro: `macro`, a name, `!`, the parameters,
/// the statements of the body, and `end`.
#[derive(Debug, Clone, Copy, PartialEq, Eq, Structural)]
pub struct MacroCreateParser {}

impl Parser for MacroCreateParser {
    open spec fn parsed(&self, tokens: Seq<TokenKind>) -> Parsed<AstModel> {
        macro_parse(tokens)
    }

    fn digest(&self, tokens: &[TokenType]) -> (result: Result<ParserResult, ParserError>) {
        let ghost kinds = kinds_of(tokens@);
        if tokens.len() >= 3 {
            assert(kinds[0] == tokens@[0]@ && kinds[1] == tokens@[1]@ && kinds[2] == tokens@[2]@);
        }
        if !(tokens.len() >= 3 && tokens[0].same_as(&TokenType::Keyword(Keyword::Macro))
            && tokens[2].is_mark(Char::Bang)) {
            return Err(mismatch("not a macro"));
        }
        let name = match &tokens[1] {
            TokenType::Symbol(name) => name.clone(),
            _ => {
                return Err(mismatch("a macro has no name"));
            },
        };
        let (body_start, parameters) = match parse_parameters(tokens, 3) {
            Ok(found) => found,
            Err(error) => {
                return Err(error);
            },
        };
        let rest = slice_subrange(tokens, body_start, tokens.len());
        let body_parser = ParserUntil::new(
            StopAt { token: TokenType::Keyword(Keyword::End) },
            StatementParser {  },
        );
        let ghost holds = |node: AstModel| node is Statement;
        proof {
            lemma_kinds_rest(tokens@, body_start as int);
            let tail = rest_of(kinds, body_start as int);
            assert(rule_of(body_parser.parser) =~= statement_rule());
            assert(stop_of(body_parser.stop_cb) =~= is_end());
            assert(body_parser.parsed(tail) == as_collection(body_parse(kinds, body_start as int)));
            lemma_until_stops(statement_rule(), is_end(), tail, 0, Seq::empty());
            lemma_until_nodes(
                statement_rule(),
                is_end(),
                tail,
                0,
                Seq::empty(),
                holds,
            );
        }
        match body_parser.digest(rest) {
            Ok(found) => {
                match found.node {
                    AstNode::UntilCollection(nodes) => {
                        proof {
                            lemma_ast_models(nodes@, nodes@.len() as int);
                            assert forall|i: int| 0 <= i < nodes@.len() implies (
                            #[trigger] nodes@[i])@ is Statement by {
                                assert(node_models(nodes@)[i] == nodes@[i]@);
                                assert(holds(node_models(nodes@)[i]));
                            }
                        }
                        let body = statements_of(nodes);
                        Ok(
                            ParserResult {
                                length: body_start + found.length + 1,
                                node: AstNode::MacroCreate(name, parameters, body),
                            },
                        )
                    },
                    _ => Err(mismatch("a macro has no body")),
                }
            },
            Err(error) => Err(error),
        }
    }
}

fn parse_item(tokens: &[TokenType]) -> (result: Result<ParserResult, ParserError>)
    ensures
        parse_view(result) == item_parse(kinds_of(tokens@)),
        parse_in_bounds(item_parse(kinds_of(tokens@)), tokens@.len() as int),
{
    let ghost kinds = kinds_of(tokens@);
    if tokens.len() > 0 {
        assert(kinds[0] == tokens@[0]@);
    }
    if tokens.len() > 1 {
        assert(kinds[1] == tokens@[1]@);
    }
    if tokens.len() > 0 && tokens[0].is_mark(Char::Percent) {
        if tokens.len() > 1 && tokens[1].same_as(&TokenType::Keyword(Keyword::Include)) {
            let parser = IncludeParser {  };
            assert(parser.parsed(kinds) == item_parse(kinds));
            parser.digest(tokens)
        } else {
            let parser = DefineParser {  };
            assert(parser.parsed(kinds) == item_parse(kinds));
            parser.digest(tokens)
        }
    } else if tokens.len() > 0 && tokens[0].same_as(&TokenType::Keyword(Keyword::Macro)) {
        let parser = MacroCreateParser {  };
        assert(parser.parsed(kinds) == item_parse(kinds));
        parser.digest(tokens)
    } else {
        let parser = StatementParser {  };
        assert(parser.parsed(kinds) == item_parse(kinds));
        parser.digest(tokens)
    }
}

/// Reads a program: items, one after the other, to the end of the tokens.
#[derive(Debug, Clone, Copy, PartialEq, Eq, Structural)]
pub struct ProgramParser {}

impl Parser for ProgramParser {
    open spec fn parsed(&self, tokens: Seq<TokenKind>) -> Parsed<AstModel> {
        program_parse(tokens)
    }

    fn digest(&self, tokens: &[TokenType]) -> (result: Result<ParserResult, ParserError>) {
        let ghost kinds = kinds_of(tokens@);
        let mut nodes: Vec<AstNode> = Vec::new();
        let mut length: usize = 0;
        proof {
            lemma_ast_models(nodes@, 0);
            assert(node_models(nodes@) =~= Seq::<AstModel>::empty());
        }
        while length < tokens.len()
            invariant
                length <= tokens@.len(),
                kinds == kinds_of(tokens@),
                items_from(kinds, length as int, node_models(nodes@)) == items_from(
                    kinds,
                    0,
                    Seq::empty(),
                ),
            decreases tokens@.len() - length,
        {
            let rest = slice_subrange(tokens, length, tokens.len());
            proof {
                lemma_kinds_rest(tokens@, length as int);
            }
            match parse_item(rest) {
                Ok(found) => {
                    if found.length == 0 {
                        return Err(mismatch("an item took no token"));
                    }
                    proof {
                        lemma_ast_models_push(nodes@, found.node);
                    }
                    length = length + found.length;
                    nodes.push(found.node);
                },
                Err(error) => {
                    return Err(error);
                },
            }
        }
        Ok(ParserResult { length, node: AstNode::Program(nodes) })
    }
}

} // verus!
