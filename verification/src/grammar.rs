//! The grammar of the language, as functions from a sequence of tokens to
//! what a parser makes of it.
//!
//! White space is no part of the grammar: the tokens are those that are
//! left when white space and comments have been taken out.
//!
//! ```text
//! program      = { item }
//! item         = "%" "include" string
//!              | "%" "define" symbol expression
//!              | "macro" symbol "!" [ parameters ] { statement } "end"
//!              | statement
//! parameters   = "$" symbol { "," "$" symbol }
//! statement    = symbol ":"
//!              | ( instruction-keyword | number ) expression
//!              | symbol "!" [ expression { "," expression } ]
//! expression   = operand { operator operand }
//! operand      = number | symbol | "$" symbol | "(" expression ")"
//! ```
//!
//! In an expression `*` and `/` bind tighter than `+` and `-`, and operators
//! of one strength group from the left.
use vstd::prelude::*;
use crate::ast::{AstModel, ExpressionModel, InstructionModel, StatementModel};
use crate::token::{BracketType, Brace, Char, KeywordKind, Operator, TokenKind, TokenSpan};

verus! {

/// Why a parser gave up.
pub enum ParseFailure {
    /// The tokens do not fit the rule.
    Mismatch,
    /// An opening bracket has no closing bracket.
    UnbalancedBrackets,
    /// The tokens ran out before a block was closed.
    UnterminatedBlock,
}

/// What a parser makes of a sequence of tokens: how many of them it takes,
/// and what they stand for; or why it gave up.
pub type Parsed<T> = Result<(int, T), ParseFailure>;

/// A rule: what some parser makes of each sequence of tokens.
pub type Rule = spec_fn(Seq<TokenKind>) -> Parsed<AstModel>;

/// The tokens of `tokens` from index `at` on.
pub open spec fn rest_of(tokens: Seq<TokenKind>, at: int) -> Seq<TokenKind> {
    tokens.subrange(at, tokens.len() as int)
}

/// The kinds of the first `count` of `spans` that are no white space.
pub open spec fn significant_before(spans: Seq<TokenSpan>, count: int) -> Seq<TokenKind>
    decreases count,
{
    if count <= 0 || count > spans.len() {
        Seq::empty()
    } else if spans[count - 1].kind is Whitespace {
        significant_before(spans, count - 1)
    } else {
        significant_before(spans, count - 1).push(spans[count - 1].kind)
    }
}

/// The kinds of the tokens that are no white space, in order.
pub open spec fn significant(spans: Seq<TokenSpan>) -> Seq<TokenKind> {
    significant_before(spans, spans.len() as int)
}

/// What a parser makes of a whole sequence of `count` tokens, given what it
/// makes of their start: the node, if it takes them all.
pub open spec fn whole(parsed: Parsed<AstModel>, count: int) -> Result<AstModel, ParseFailure> {
    match parsed {
        Ok((length, node)) => if length == count {
            Ok(node)
        } else {
            Err(ParseFailure::Mismatch)
        },
        Err(failure) => Err(failure),
    }
}

/// The index of the `)` that closes a `(` before `at`, when `depth` more
/// `(` are open at `at`; the search ends before `to`.
pub open spec fn closing_bracket(tokens: Seq<TokenKind>, at: int, to: int, depth: nat) -> Option<
    int,
>
    decreases to - at,
{
    if at < 0 || at >= to || to > tokens.len() {
        None
    } else if tokens[at] == TokenKind::Brace(Brace::Round(BracketType::Opening)) {
        closing_bracket(tokens, at + 1, to, depth + 1)
    } else if tokens[at] == TokenKind::Brace(Brace::Round(BracketType::Closing)) {
        if depth == 0 {
            Some(at)
        } else {
            closing_bracket(tokens, at + 1, to, (depth - 1) as nat)
        }
    } else {
        closing_bracket(tokens, at + 1, to, depth)
    }
}

/// The name under which a macro parameter is referred to: `$` and the
/// symbol.
pub open spec fn parameter_name(symbol: Seq<char>) -> Seq<char> {
    seq!['$'] + symbol
}

/// An operator and the operand to its right.
pub type Link = (Operator, ExpressionModel);

/// The operand that begins at `at` and ends before `to`, and where it ends.
pub open spec fn operand_at(tokens: Seq<TokenKind>, at: int, to: int) -> Parsed<ExpressionModel>
    decreases to - at, 0int,
{
    if at < 0 || at >= to || to > tokens.len() {
        Err(ParseFailure::Mismatch)
    } else {
        match tokens[at] {
            TokenKind::NumberLiteral(value) => Ok((at + 1, ExpressionModel::Literal(value))),
            TokenKind::Symbol(name) => Ok((at + 1, ExpressionModel::SymbolRef(name))),
            TokenKind::Punctuation(Char::Dollar) => if at + 1 < to {
                match tokens[at + 1] {
                    TokenKind::Symbol(name) => Ok(
                        (at + 2, ExpressionModel::SymbolRef(parameter_name(name))),
                    ),
                    _ => Err(ParseFailure::Mismatch),
                }
            } else {
                Err(ParseFailure::Mismatch)
            },
            TokenKind::Brace(Brace::Round(BracketType::Opening)) => match closing_bracket(
                tokens,
                at + 1,
                to,
                0,
            ) {
                Some(close) => if at < close < to {
                    match expression_at(tokens, at + 1, close) {
                        Ok((end, inner)) => if end == close {
                            Ok((close + 1, inner))
                        } else {
                            Err(ParseFailure::Mismatch)
                        },
                        Err(failure) => Err(failure),
                    }
                } else {
                    Err(ParseFailure::Mismatch)
                },
                None => Err(ParseFailure::UnbalancedBrackets),
            },
            _ => Err(ParseFailure::Mismatch),
        }
    }
}

/// The operators and operands that follow from `at` on, after those of
/// `done`, and where they end.  They end before the first token that is no
/// operator.
pub open spec fn chain_from(tokens: Seq<TokenKind>, at: int, to: int, done: Seq<Link>) -> Parsed<
    Seq<Link>,
>
    decreases to - at, 1int,
{
    if 0 <= at < to <= tokens.len() {
        match tokens[at] {
            TokenKind::Operator(operator) => match operand_at(tokens, at + 1, to) {
                Ok((end, operand)) => if at < end <= to {
                    chain_from(tokens, end, to, done.push((operator, operand)))
                } else {
                    Err(ParseFailure::Mismatch)
                },
                Err(failure) => Err(failure),
            },
            _ => Ok((at, done)),
        }
    } else {
        Ok((at, done))
    }
}

/// The expression that begins at `at` and ends before `to`, and where it
/// ends: an operand and the chain of operators and operands after it.
pub open spec fn expression_at(tokens: Seq<TokenKind>, at: int, to: int) -> Parsed<
    ExpressionModel,
>
    decreases to - at, 2int,
{
    match operand_at(tokens, at, to) {
        Ok((end, first)) => if at < end <= to {
            match chain_from(tokens, end, to, Seq::empty()) {
                Ok((stop, links)) => Ok((stop, tree_of(first, links))),
                Err(failure) => Err(failure),
            }
        } else {
            Err(ParseFailure::Mismatch)
        },
        Err(failure) => Err(failure),
    }
}

/// While a chain is read from the left: the sum so far with the operator
/// that follows it, and the product that is being built.
pub struct Grouping {
    pub sum: Option<(ExpressionModel, Operator)>,
    pub product: ExpressionModel,
}

/// Whether `operator` binds tighter than `+` and `-`.
pub open spec fn binds_tighter(operator: Operator) -> bool {
    operator == Operator::Mult || operator == Operator::Div
}

/// The expression that a grouping stands for: the product, joined to the
/// sum where there is one.
pub open spec fn close_group(grouping: Grouping) -> ExpressionModel {
    match grouping.sum {
        Some((left, operator)) => ExpressionModel::Binary(
            operator,
            Box::new(left),
            Box::new(grouping.product),
        ),
        None => grouping.product,
    }
}

/// The grouping after one more link.  `*` and `/` extend the product; `+`
/// and `-` close it and begin the next.
pub open spec fn group_step(grouping: Grouping, link: Link) -> Grouping {
    if binds_tighter(link.0) {
        Grouping {
            sum: grouping.sum,
            product: ExpressionModel::Binary(
                link.0,
                Box::new(grouping.product),
                Box::new(link.1),
            ),
        }
    } else {
        Grouping { sum: Some((close_group(grouping), link.0)), product: link.1 }
    }
}

/// The grouping after the operand `first` and the chain `links`.
pub open spec fn group_chain(first: ExpressionModel, links: Seq<Link>) -> Grouping
    decreases links.len(),
{
    if links.len() == 0 {
        Grouping { sum: None, product: first }
    } else {
        group_step(group_chain(first, links.drop_last()), links.last())
    }
}

/// The tree of the expression that is written as the operand `first` and the
/// chain `links`.
pub open spec fn tree_of(first: ExpressionModel, links: Seq<Link>) -> ExpressionModel {
    close_group(group_chain(first, links))
}

/// What the expression parser makes of `tokens`.
pub open spec fn expression_parse(tokens: Seq<TokenKind>) -> Parsed<ExpressionModel> {
    expression_at(tokens, 0, tokens.len() as int)
}

/// Whether a list of arguments begins at the start of `tokens`: with a
/// token that can begin an expression, but not with a symbol that a `:` or a
/// `!` follows, which begins the next statement.
pub open spec fn starts_argument(tokens: Seq<TokenKind>) -> bool {
    tokens.len() > 0 && match tokens[0] {
        TokenKind::NumberLiteral(_) => true,
        TokenKind::Punctuation(Char::Dollar) => true,
        TokenKind::Brace(Brace::Round(BracketType::Opening)) => true,
        TokenKind::Symbol(_) => !(tokens.len() > 1 && (tokens[1] == TokenKind::Punctuation(
            Char::Colon,
        ) || tokens[1] == TokenKind::Punctuation(Char::Bang))),
        _ => false,
    }
}

/// The expressions, separated by commas, that begin at `at`, after those
/// of `done`, and where they end.
pub open spec fn arguments_from(tokens: Seq<TokenKind>, at: int, done: Seq<ExpressionModel>) -> Parsed<
    Seq<ExpressionModel>,
>
    decreases tokens.len() - at,
{
    if 0 <= at <= tokens.len() {
        match expression_parse(rest_of(tokens, at)) {
            Ok((length, argument)) => if 0 < length <= tokens.len() - at {
                let next = at + length;
                if next < tokens.len() && tokens[next] == TokenKind::Punctuation(Char::Comma) {
                    arguments_from(tokens, next + 1, done.push(argument))
                } else {
                    Ok((next, done.push(argument)))
                }
            } else {
                Err(ParseFailure::Mismatch)
            },
            Err(failure) => Err(failure),
        }
    } else {
        Err(ParseFailure::Mismatch)
    }
}

/// The arguments of a macro call, which begin at the start of `tokens`.
pub open spec fn arguments_parse(tokens: Seq<TokenKind>) -> Parsed<Seq<ExpressionModel>> {
    if starts_argument(tokens) {
        arguments_from(tokens, 0, Seq::empty())
    } else {
        Ok((0, Seq::empty()))
    }
}

/// An instruction with the operand that `tokens` hold from index 1 on.
pub open spec fn instruction_parse(instruction: InstructionModel, tokens: Seq<TokenKind>) -> Parsed<
    StatementModel,
> {
    match expression_parse(rest_of(tokens, 1)) {
        Ok((length, operand)) => Ok((1 + length, StatementModel::Instruction(instruction, operand))),
        Err(failure) => Err(failure),
    }
}

/// What the statement parser makes of `tokens`.
pub open spec fn statement_parse(tokens: Seq<TokenKind>) -> Parsed<StatementModel> {
    if tokens.len() == 0 {
        Err(ParseFailure::Mismatch)
    } else {
        match tokens[0] {
            TokenKind::Symbol(name) => if tokens.len() > 1 && tokens[1] == TokenKind::Punctuation(
                Char::Colon,
            ) {
                Ok((2, StatementModel::Label(name)))
            } else if tokens.len() > 1 && tokens[1] == TokenKind::Punctuation(Char::Bang) {
                match arguments_parse(rest_of(tokens, 2)) {
                    Ok((length, arguments)) => Ok(
                        (2 + length, StatementModel::MacroCall(name, arguments)),
                    ),
                    Err(failure) => Err(failure),
                }
            } else {
                Err(ParseFailure::Mismatch)
            },
            TokenKind::Keyword(KeywordKind::Instruction(opcode, mnemonic)) => instruction_parse(
                InstructionModel::Named(opcode, mnemonic),
                tokens,
            ),
            TokenKind::NumberLiteral(opcode) => if opcode >= 0 {
                instruction_parse(InstructionModel::Number(opcode as u64), tokens)
            } else {
                Err(ParseFailure::Mismatch)
            },
            _ => Err(ParseFailure::Mismatch),
        }
    }
}

/// A parsed statement as a node.
pub open spec fn as_node(parsed: Parsed<StatementModel>) -> Parsed<AstModel> {
    match parsed {
        Ok((length, statement)) => Ok((length, AstModel::Statement(statement))),
        Err(failure) => Err(failure),
    }
}

/// What the include parser makes of `tokens`.
pub open spec fn include_parse(tokens: Seq<TokenKind>) -> Parsed<AstModel> {
    if tokens.len() >= 3 && tokens[0] == TokenKind::Punctuation(Char::Percent) && tokens[1]
        == TokenKind::Keyword(KeywordKind::Include) {
        match tokens[2] {
            TokenKind::StringLiteral(path) => Ok((3, AstModel::Include(path))),
            _ => Err(ParseFailure::Mismatch),
        }
    } else {
        Err(ParseFailure::Mismatch)
    }
}

/// What the define parser makes of `tokens`.
pub open spec fn define_parse(tokens: Seq<TokenKind>) -> Parsed<AstModel> {
    if tokens.len() >= 3 && tokens[0] == TokenKind::Punctuation(Char::Percent) && tokens[1]
        == TokenKind::Keyword(KeywordKind::Define) {
        match tokens[2] {
            TokenKind::Symbol(name) => match expression_parse(rest_of(tokens, 3)) {
                Ok((length, value)) => Ok((3 + length, AstModel::Define(name, value))),
                Err(failure) => Err(failure),
            },
            _ => Err(ParseFailure::Mismatch),
        }
    } else {
        Err(ParseFailure::Mismatch)
    }
}

/// The parameters, each a `$` and a symbol, separated by commas, that begin
/// at `at`, after those of `done`, and where they end.
pub open spec fn parameters_from(tokens: Seq<TokenKind>, at: int, done: Seq<Seq<char>>) -> Parsed<
    Seq<Seq<char>>,
>
    decreases tokens.len() - at,
{
    if 0 <= at && at + 1 < tokens.len() && tokens[at] == TokenKind::Punctuation(Char::Dollar) {
        match tokens[at + 1] {
            TokenKind::Symbol(name) => {
                let named = done.push(parameter_name(name));
                if at + 2 < tokens.len() && tokens[at + 2] == TokenKind::Punctuation(
                    Char::Comma,
                ) {
                    parameters_from(tokens, at + 3, named)
                } else {
                    Ok((at + 2, named))
                }
            },
            _ => Err(ParseFailure::Mismatch),
        }
    } else {
        Err(ParseFailure::Mismatch)
    }
}

/// The parameter list of a macro, which begins at `at`: empty unless a `$`
/// stands there.
pub open spec fn parameters_parse(tokens: Seq<TokenKind>, at: int) -> Parsed<Seq<Seq<char>>> {
    if 0 <= at < tokens.len() && tokens[at] == TokenKind::Punctuation(Char::Dollar) {
        parameters_from(tokens, at, Seq::empty())
    } else {
        Ok((at, Seq::empty()))
    }
}

/// Repetition up to a stop: what `inner` makes of the tokens from `at` on,
/// again and again, after the nodes of `done`, until the next token meets
/// `stop`; and the index of that token.  It is a failure if the tokens run
/// out first, and if `inner` takes no token.
pub open spec fn until_from(
    inner: Rule,
    stop: spec_fn(TokenKind) -> bool,
    tokens: Seq<TokenKind>,
    at: int,
    done: Seq<AstModel>,
) -> Parsed<Seq<AstModel>>
    decreases tokens.len() - at,
{
    if at < 0 || at >= tokens.len() {
        Err(ParseFailure::UnterminatedBlock)
    } else if stop(tokens[at]) {
        Ok((at, done))
    } else {
        match inner(rest_of(tokens, at)) {
            Ok((length, node)) => if 0 < length <= tokens.len() - at {
                until_from(inner, stop, tokens, at + length, done.push(node))
            } else {
                Err(ParseFailure::Mismatch)
            },
            Err(failure) => Err(failure),
        }
    }
}

/// One after the other: what the rules of `steps` make of the tokens from
/// `at` on, from step `index` on, after the nodes of `done`; and where the
/// last one ends.  Only the steps marked `true` add their node.
pub open spec fn sequence_from(
    steps: Seq<(Rule, bool)>,
    index: int,
    tokens: Seq<TokenKind>,
    at: int,
    done: Seq<AstModel>,
) -> Parsed<Seq<AstModel>>
    decreases steps.len() - index,
{
    if index < 0 || index >= steps.len() {
        Ok((at, done))
    } else if 0 <= at <= tokens.len() {
        match (steps[index].0)(rest_of(tokens, at)) {
            Ok((length, node)) => if 0 <= length <= tokens.len() - at {
                sequence_from(
                    steps,
                    index + 1,
                    tokens,
                    at + length,
                    if steps[index].1 {
                        done.push(node)
                    } else {
                        done
                    },
                )
            } else {
                Err(ParseFailure::Mismatch)
            },
            Err(failure) => Err(failure),
        }
    } else {
        Err(ParseFailure::Mismatch)
    }
}

/// A parsed sequence of nodes as one node.
pub open spec fn as_collection(parsed: Parsed<Seq<AstModel>>) -> Parsed<AstModel> {
    match parsed {
        Ok((length, nodes)) => Ok((length, AstModel::Collection(nodes))),
        Err(failure) => Err(failure),
    }
}

/// The rule of statements.
pub open spec fn statement_rule() -> Rule {
    |tokens: Seq<TokenKind>| as_node(statement_parse(tokens))
}

/// The test for the keyword `end`.
pub open spec fn is_end() -> spec_fn(TokenKind) -> bool {
    |kind: TokenKind| kind == TokenKind::Keyword(KeywordKind::End)
}

/// The statement in a node; nodes of other kinds stand for no statement and
/// are read as an empty label.
pub open spec fn statement_in(node: AstModel) -> StatementModel {
    match node {
        AstModel::Statement(statement) => statement,
        _ => StatementModel::Label(Seq::empty()),
    }
}

/// The statements in a sequence of nodes.
pub open spec fn statements_in(nodes: Seq<AstModel>) -> Seq<StatementModel> {
    nodes.map_values(|node: AstModel| statement_in(node))
}

/// The body of a macro, which begins at `at`: statements up to the keyword
/// `end`.
pub open spec fn body_parse(tokens: Seq<TokenKind>, at: int) -> Parsed<Seq<AstModel>> {
    until_from(statement_rule(), is_end(), rest_of(tokens, at), 0, Seq::empty())
}

/// What the macro parser makes of `tokens`.
pub open spec fn macro_parse(tokens: Seq<TokenKind>) -> Parsed<AstModel> {
    if tokens.len() >= 3 && tokens[0] == TokenKind::Keyword(KeywordKind::Macro) && tokens[2]
        == TokenKind::Punctuation(Char::Bang) {
        match tokens[1] {
            TokenKind::Symbol(name) => match parameters_parse(tokens, 3) {
                Ok((body_start, parameters)) => match body_parse(tokens, body_start) {
                    Ok((length, body)) => Ok(
                        (
                            body_start + length + 1,
                            AstModel::MacroCreate(name, parameters, statements_in(body)),
                        ),
                    ),
                    Err(failure) => Err(failure),
                },
                Err(failure) => Err(failure),
            },
            _ => Err(ParseFailure::Mismatch),
        }
    } else {
        Err(ParseFailure::Mismatch)
    }
}

/// What the parser of one item of a program makes of `tokens`.  The first
/// tokens decide which rule applies.
pub open spec fn item_parse(tokens: Seq<TokenKind>) -> Parsed<AstModel> {
    if tokens.len() > 0 && tokens[0] == TokenKind::Punctuation(Char::Percent) {
        if tokens.len() > 1 && tokens[1] == TokenKind::Keyword(KeywordKind::Include) {
            include_parse(tokens)
        } else {
            define_parse(tokens)
        }
    } else if tokens.len() > 0 && tokens[0] == TokenKind::Keyword(KeywordKind::Macro) {
        macro_parse(tokens)
    } else {
        as_node(statement_parse(tokens))
    }
}

/// The items from `at` on, after those of `done`, to the end of the tokens.
pub open spec fn items_from(tokens: Seq<TokenKind>, at: int, done: Seq<AstModel>) -> Parsed<
    Seq<AstModel>,
>
    decreases tokens.len() - at,
{
    if at < 0 || at >= tokens.len() {
        Ok((at, done))
    } else {
        match item_parse(rest_of(tokens, at)) {
            Ok((length, node)) => if 0 < length <= tokens.len() - at {
                items_from(tokens, at + length, done.push(node))
            } else {
                Err(ParseFailure::Mismatch)
            },
            Err(failure) => Err(failure),
        }
    }
}

/// What the program parser makes of `tokens`: it takes them all.
pub open spec fn program_parse(tokens: Seq<TokenKind>) -> Parsed<AstModel> {
    match items_from(tokens, 0, Seq::empty()) {
        Ok((length, items)) => Ok((length, AstModel::Program(items))),
        Err(failure) => Err(failure),
    }
}

} // verus!
