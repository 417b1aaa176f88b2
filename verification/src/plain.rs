//! Plain programs: labels and instructions with constant operands, and
//! nothing else.  What such a program is written as, what its text parses
//! to, and what it resolves to.
use vstd::prelude::*;
use crate::ast::{AstModel, ExpressionModel, InstructionModel, StatementModel};
use crate::grammar::{as_node, chain_from, expression_at, expression_parse, group_chain,
    instruction_parse, item_parse, items_from, operand_at, program_parse, rest_of,
    statement_parse, tree_of, Link};
use crate::resolution::{apply_defines, collect_before, define_before,
    emit_before, evaluate, expand_before, labels_before, lemma_resolve_label_twice, resolve_model, rewrite, rewrite_before, Declarations, DefineModel, LabelModel, LineModel,
    MacroModel, ResolveFailure, ResolvedModel, MAX_EXPANSION_DEPTH};
use crate::token::{Char, KeywordKind, TokenKind};

verus! {

/// Whether a statement is plain: a label, or an instruction whose operand
/// is a number and whose opcode, where it is written as a number, can be
/// written as a number literal.
pub open spec fn is_plain(statement: StatementModel) -> bool {
    match statement {
        StatementModel::Label(_) => true,
        StatementModel::Instruction(instruction, operand) => operand is Literal && (
        instruction matches InstructionModel::Number(opcode) ==> opcode <= i64::MAX),
        StatementModel::MacroCall(_, _) => false,
    }
}

/// Whether all of `statements` are plain.
pub open spec fn all_plain(statements: Seq<StatementModel>) -> bool {
    forall|i: int| 0 <= i < statements.len() ==> is_plain(#[trigger] statements[i])
}

/// The token that names an instruction.
pub open spec fn opcode_token(instruction: InstructionModel) -> TokenKind {
    match instruction {
        InstructionModel::Named(opcode, mnemonic) => TokenKind::Keyword(
            KeywordKind::Instruction(opcode, mnemonic),
        ),
        InstructionModel::Number(opcode) => TokenKind::NumberLiteral(opcode as i64),
    }
}

/// The two tokens that a plain statement is written as.
pub open spec fn plain_tokens(statement: StatementModel) -> Seq<TokenKind> {
    match statement {
        StatementModel::Label(name) => seq![
            TokenKind::Symbol(name),
            TokenKind::Punctuation(Char::Colon),
        ],
        StatementModel::Instruction(instruction, operand) => seq![
            opcode_token(instruction),
            TokenKind::NumberLiteral(operand->Literal_0),
        ],
        StatementModel::MacroCall(_, _) => Seq::empty(),
    }
}

/// The tokens that the statements from index `at` on are written as, one
/// statement after the other.
pub open spec fn written_from(statements: Seq<StatementModel>, at: int) -> Seq<TokenKind>
    decreases statements.len() - at,
{
    if at < 0 || at >= statements.len() {
        Seq::empty()
    } else {
        plain_tokens(statements[at]) + written_from(statements, at + 1)
    }
}

/// The tokens that a plain program is written as.
pub open spec fn written(statements: Seq<StatementModel>) -> Seq<TokenKind> {
    written_from(statements, 0)
}

/// The statements as nodes of a program.
pub open spec fn nodes_of(statements: Seq<StatementModel>) -> Seq<AstModel> {
    statements.map_values(|statement: StatementModel| AstModel::Statement(statement))
}

/// The line that a plain statement stands for.
pub open spec fn plain_line(statement: StatementModel) -> LineModel {
    match statement {
        StatementModel::Instruction(instruction, operand) => LineModel::Code(
            instruction.opcode(),
            operand,
        ),
        StatementModel::Label(name) => LineModel::Label(name),
        StatementModel::MacroCall(name, _) => LineModel::Label(name),
    }
}

/// The lines that plain statements stand for.
pub open spec fn plain_lines(statements: Seq<StatementModel>) -> Seq<LineModel> {
    statements.map_values(|statement: StatementModel| plain_line(statement))
}

/// The opcode and operand of a plain instruction.
pub open spec fn plain_pair(statement: StatementModel) -> (u64, i64) {
    match statement {
        StatementModel::Instruction(instruction, operand) => (
            instruction.opcode(),
            operand->Literal_0,
        ),
        _ => (0, 0),
    }
}

/// Whether all of `statements` are instructions.
pub open spec fn all_instructions(statements: Seq<StatementModel>) -> bool {
    forall|i: int| 0 <= i < statements.len() ==> (#[trigger] statements[i]) is Instruction
}

#[verifier::rlimit(30)]
proof fn lemma_item_plain(tokens: Seq<TokenKind>, statements: Seq<StatementModel>, at: int)
    requires
        all_plain(statements),
        0 <= at < statements.len(),
        tokens == written_from(statements, at),
    ensures
        item_parse(tokens) == Ok::<(int, AstModel), crate::grammar::ParseFailure>(
            (2, AstModel::Statement(statements[at])),
        ),
        tokens.len() >= 2,
        rest_of(tokens, 2) == written_from(statements, at + 1),
{
    let statement = statements[at];
    let own = plain_tokens(statement);
    let next = written_from(statements, at + 1);
    assert(is_plain(statement));
    assert(own.len() == 2);
    assert(tokens[0] == own[0]);
    assert(tokens[1] == own[1]);
    assert(rest_of(tokens, 2) =~= next);
    if at + 1 < statements.len() {
        assert(is_plain(statements[at + 1]));
        assert(next[0] == plain_tokens(statements[at + 1])[0]);
        assert(!(next[0] is Operator));
    }
    match statement {
        StatementModel::Label(name) => {
            assert(statement_parse(tokens) == Ok::<
                (int, StatementModel),
                crate::grammar::ParseFailure,
            >((2, statement)));
        },
        StatementModel::Instruction(instruction, operand) => {
            let value = operand->Literal_0;
            let tail = rest_of(tokens, 1);
            assert(tail[0] == TokenKind::NumberLiteral(value));
            let to = tail.len() as int;
            assert(operand_at(tail, 0, to) == Ok::<
                (int, ExpressionModel),
                crate::grammar::ParseFailure,
            >((1, ExpressionModel::Literal(value))));
            if 1 < to {
                assert(tail[1] == next[0]);
            }
            assert(chain_from(tail, 1, to, Seq::<Link>::empty()) == Ok::<
                (int, Seq<Link>),
                crate::grammar::ParseFailure,
            >((1, Seq::empty())));
            assert(group_chain(ExpressionModel::Literal(value), Seq::<Link>::empty()).sum
                is None);
            assert(tree_of(ExpressionModel::Literal(value), Seq::<Link>::empty())
                == ExpressionModel::Literal(value));
            assert(expression_at(tail, 0, to) == Ok::<
                (int, ExpressionModel),
                crate::grammar::ParseFailure,
            >((1, ExpressionModel::Literal(value))));
            assert(expression_parse(tail) == expression_at(tail, 0, to));
            assert(instruction_parse(instruction, tokens) == Ok::<
                (int, StatementModel),
                crate::grammar::ParseFailure,
            >((2, statement)));
            assert(statement_parse(tokens) == Ok::<
                (int, StatementModel),
                crate::grammar::ParseFailure,
            >((2, statement)));
        },
        StatementModel::MacroCall(_, _) => {},
    }
    assert(item_parse(tokens) == as_node(statement_parse(tokens)));
}

#[verifier::rlimit(30)]
proof fn lemma_items_plain(
    tokens: Seq<TokenKind>,
    statements: Seq<StatementModel>,
    at: int,
    index: int,
    done: Seq<AstModel>,
)
    requires
        all_plain(statements),
        0 <= index <= statements.len(),
        0 <= at <= tokens.len(),
        rest_of(tokens, at) == written_from(statements, index),
    ensures
        items_from(tokens, at, done) == Ok::<(int, Seq<AstModel>), crate::grammar::ParseFailure>(
            (
                tokens.len() as int,
                done + nodes_of(statements).subrange(index, statements.len() as int),
            ),
        ),
    decreases statements.len() - index,
{
    let nodes = nodes_of(statements);
    let whole = statements.len() as int;
    if index == statements.len() {
        assert(rest_of(tokens, at).len() == 0);
        assert(done + nodes.subrange(index, whole) =~= done);
    } else {
        let rest = rest_of(tokens, at);
        let node = AstModel::Statement(statements[index]);
        lemma_item_plain(rest, statements, index);
        assert(rest_of(tokens, at + 2) == written_from(statements, index + 1)) by {
            assert(rest_of(tokens, at + 2) =~= rest_of(rest, 2));
        }
        lemma_items_plain(tokens, statements, at + 2, index + 1, done.push(node));
        assert(done.push(node) + nodes.subrange(index + 1, whole) == done + nodes.subrange(
            index,
            whole,
        )) by {
            assert(nodes[index] == node);
            assert(done.push(node) + nodes.subrange(index + 1, whole) =~= done + nodes.subrange(
                index,
                whole,
            ));
        }
        assert(items_from(tokens, at, done) == items_from(tokens, at + 2, done.push(node)));
    }
}

/// The text of a plain program parses to that program: one statement for
/// each statement written, in order.
pub proof fn lemma_plain_source_parses(statements: Seq<StatementModel>)
    requires
        all_plain(statements),
    ensures
        program_parse(written(statements)) == Ok::<(int, AstModel), crate::grammar::ParseFailure>(
            (written(statements).len() as int, AstModel::Program(nodes_of(statements))),
        ),
{
    let tokens = written(statements);
    assert(rest_of(tokens, 0) =~= tokens);
    lemma_items_plain(tokens, statements, 0, 0, Seq::empty());
    let nodes = nodes_of(statements);
    assert(Seq::<AstModel>::empty() + nodes.subrange(0, statements.len() as int) =~= nodes);
}

/// Pass 1 on a program of statements only: nothing is declared and the
/// statements are kept.
pub proof fn lemma_collect_statements(statements: Seq<StatementModel>, count: int)
    requires
        0 <= count <= statements.len(),
    ensures
        collect_before(nodes_of(statements), count) == Ok::<Declarations, ResolveFailure>(
            Declarations {
                macros: Seq::empty(),
                defines: Seq::empty(),
                statements: statements.take(count),
            },
        ),
    decreases count,
{
    if count > 0 {
        lemma_collect_statements(statements, count - 1);
        assert(statements.take(count - 1).push(statements[count - 1]) =~= statements.take(count));
    } else {
        assert(statements.take(0) =~= Seq::<StatementModel>::empty());
    }
}

/// Pass 2 on plain statements: each stands for its own line.
pub proof fn lemma_expand_plain_lines(
    statements: Seq<StatementModel>,
    count: int,
    macros: Seq<MacroModel>,
    depth: nat,
)
    requires
        all_plain(statements),
        0 <= count <= statements.len(),
    ensures
        expand_before(statements, count, macros, depth) == Ok::<Seq<LineModel>, ResolveFailure>(
            plain_lines(statements).take(count),
        ),
    decreases count,
{
    let lines = plain_lines(statements);
    if count > 0 {
        lemma_expand_plain_lines(statements, count - 1, macros, depth);
        assert(is_plain(statements[count - 1]));
        assert(lines.take(count - 1).push(lines[count - 1]) =~= lines.take(count));
    } else {
        assert(lines.take(0) =~= Seq::<LineModel>::empty());
    }
}

/// Whether every operand among the lines is a number.
pub open spec fn constant_lines(lines: Seq<LineModel>) -> bool {
    forall|i: int|
        0 <= i < lines.len() ==> ((#[trigger] lines[i]) matches LineModel::Code(_, operand)
            ==> operand is Literal)
}

/// Passes 3 and 5 leave lines with constant operands as they are.
pub proof fn lemma_constant_lines(
    lines: Seq<LineModel>,
    count: int,
    defines: Seq<DefineModel>,
    labels: Seq<LabelModel>,
)
    requires
        constant_lines(lines),
        0 <= count <= lines.len(),
    ensures
        define_before(lines, count, defines) == Ok::<Seq<LineModel>, ResolveFailure>(
            lines.take(count),
        ),
        rewrite_before(lines, count, labels) == Ok::<Seq<LineModel>, ResolveFailure>(
            lines.take(count),
        ),
    decreases count,
{
    if count > 0 {
        lemma_constant_lines(lines, count - 1, defines, labels);
        assert(lines.take(count - 1).push(lines[count - 1]) =~= lines.take(count));
        match lines[count - 1] {
            LineModel::Code(_, operand) => {
                assert(operand is Literal);
                assert(apply_defines(operand, defines, defines.len()) == Ok::<
                    ExpressionModel,
                    ResolveFailure,
                >(operand));
                assert(rewrite(operand, labels) == Ok::<ExpressionModel, ResolveFailure>(operand));
            },
            _ => {},
        }
    } else {
        assert(lines.take(0) =~= Seq::<LineModel>::empty());
    }
}

/// Passes 4, 6 and 7 on the lines of plain instructions: no label, and one
/// instruction for each line.
pub proof fn lemma_emit_plain(statements: Seq<StatementModel>, count: int)
    requires
        all_plain(statements),
        all_instructions(statements),
        0 <= count <= statements.len(),
    ensures
        labels_before(plain_lines(statements), count) == Ok::<Seq<LabelModel>, ResolveFailure>(
            Seq::empty(),
        ),
        emit_before(plain_lines(statements), count) == Ok::<Seq<(u64, i64)>, ResolveFailure>(
            statements.map_values(|statement: StatementModel| plain_pair(statement)).take(count),
        ),
    decreases count,
{
    let pairs = statements.map_values(|statement: StatementModel| plain_pair(statement));
    if count > 0 {
        lemma_emit_plain(statements, count - 1);
        assert(is_plain(statements[count - 1]));
        assert(statements[count - 1] is Instruction);
        assert(pairs.take(count - 1).push(pairs[count - 1]) =~= pairs.take(count));
        let operand = statements[count - 1]->Instruction_1;
        assert(evaluate(operand) == Ok::<int, ResolveFailure>(operand->Literal_0 as int));
    } else {
        assert(pairs.take(0) =~= Seq::<(u64, i64)>::empty());
    }
}

/// A program of plain instructions, with no macro, define or label, parses
/// from its text to as many statements as were written and resolves to as
/// many instructions: for each statement, in order, its opcode and its
/// operand.
pub proof fn lemma_plain_instructions_resolve(statements: Seq<StatementModel>)
    requires
        all_plain(statements),
        all_instructions(statements),
    ensures
        program_parse(written(statements)) == Ok::<(int, AstModel), crate::grammar::ParseFailure>(
            (written(statements).len() as int, AstModel::Program(nodes_of(statements))),
        ),
        nodes_of(statements).len() == statements.len(),
        resolve_model(AstModel::Program(nodes_of(statements))) == Ok::<
            ResolvedModel,
            ResolveFailure,
        >(
            ResolvedModel {
                instructions: statements.map_values(
                    |statement: StatementModel| plain_pair(statement),
                ),
                symbols: Seq::empty(),
            },
        ),
{
    lemma_plain_source_parses(statements);
    let whole = statements.len() as int;
    let lines = plain_lines(statements);
    let pairs = statements.map_values(|statement: StatementModel| plain_pair(statement));
    lemma_collect_statements(statements, whole);
    assert(statements.take(whole) =~= statements);
    lemma_expand_plain_lines(statements, whole, Seq::empty(), MAX_EXPANSION_DEPTH as nat);
    assert(lines.take(whole) =~= lines);
    assert(constant_lines(lines)) by {
        assert forall|i: int| 0 <= i < lines.len() implies ((
        #[trigger] lines[i]) matches LineModel::Code(_, operand) ==> operand is Literal) by {
            assert(is_plain(statements[i]));
        }
    }
    lemma_constant_lines(lines, whole, Seq::empty(), Seq::empty());
    lemma_emit_plain(statements, whole);
    assert(pairs.take(whole) =~= pairs);
}

/// A plain program that declares a label twice parses from its text to the
/// program that was written, and resolving it fails with a duplicate label.
pub proof fn lemma_plain_label_twice(statements: Seq<StatementModel>, first: int, second: int)
    requires
        all_plain(statements),
        0 <= first < second < statements.len(),
        statements[first] is Label,
        statements[second] == statements[first],
    ensures
        program_parse(written(statements)) == Ok::<(int, AstModel), crate::grammar::ParseFailure>(
            (written(statements).len() as int, AstModel::Program(nodes_of(statements))),
        ),
        resolve_model(AstModel::Program(nodes_of(statements))) matches Err(failure) && failure
            is DuplicateLabel,
{
    lemma_plain_source_parses(statements);
    let whole = statements.len() as int;
    let lines = plain_lines(statements);
    let nodes = nodes_of(statements);
    lemma_collect_statements(statements, whole);
    assert(statements.take(whole) =~= statements);
    lemma_expand_plain_lines(statements, whole, Seq::empty(), MAX_EXPANSION_DEPTH as nat);
    assert(lines.take(whole) =~= lines);
    assert(constant_lines(lines)) by {
        assert forall|i: int| 0 <= i < lines.len() implies ((
        #[trigger] lines[i]) matches LineModel::Code(_, operand) ==> operand is Literal) by {
            assert(is_plain(statements[i]));
        }
    }
    lemma_constant_lines(lines, whole, Seq::empty(), Seq::empty());
    assert(nodes[first] == AstModel::Statement(statements[first]));
    assert(nodes[second] == AstModel::Statement(statements[second]));
    lemma_resolve_label_twice(nodes, first, second);
}

} // verus!
