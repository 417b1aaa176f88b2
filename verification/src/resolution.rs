//! What resolving a program means: the passes that turn a syntax tree into
//! a flat list of instructions, as functions on the models.
//!
//! The passes run in this order, each over the whole program, and the first
//! failure ends the resolution:
//!
//! 1. the declarations of macros and defines are collected;
//! 2. macro calls are replaced by the bodies of their macros, with the
//!    arguments in place of the parameters;
//! 3. references to defines are replaced by their values;
//! 4. each label gets as its address the number of instructions before it;
//! 5. references to labels are replaced by their addresses;
//! 6. the operands are evaluated;
//! 7. the instructions are listed, each with its opcode and operand.
use vstd::prelude::*;
use crate::ast::{AstModel, ExpressionModel, StatementModel};
use crate::token::Operator;

verus! {

/// How deep macro calls may nest: a macro body may call macros whose bodies
/// call macros, and so on, this many times.
pub const MAX_EXPANSION_DEPTH: usize = 64;

/// Why a program could not be resolved.
pub enum ResolveFailure {
    /// Two labels have this name.
    DuplicateLabel(Seq<char>),
    /// Two macros have this name.
    DuplicateMacro(Seq<char>),
    /// Two defines have this name.
    DuplicateDefine(Seq<char>),
    /// An operand refers to this name, which nothing declares; or a call
    /// names this macro, which nothing declares.
    UnresolvedSymbol(Seq<char>),
    /// Macro calls nest deeper than [`MAX_EXPANSION_DEPTH`].
    ExpansionDepthExceeded,
    /// The value of this define refers to itself, directly or through other
    /// defines.
    CyclicDefine(Seq<char>),
    /// The file of this path has not been spliced in.
    UnresolvedInclude(Seq<char>),
    /// The tree is no program, or an item of it is none.
    MalformedProgram,
    /// A number does not fit in 64 bits.
    ArithmeticOverflow,
    /// An operand divides by zero.
    DivisionByZero,
}

/// A declared macro.
pub struct MacroModel {
    pub name: Seq<char>,
    pub parameters: Seq<Seq<char>>,
    pub body: Seq<StatementModel>,
}

/// A declared define: its name and its value.
pub type DefineModel = (Seq<char>, ExpressionModel);

/// What a program declares, and the statements that are left.
pub struct Declarations {
    pub macros: Seq<MacroModel>,
    pub defines: Seq<DefineModel>,
    pub statements: Seq<StatementModel>,
}

/// A statement after macro expansion: the declaration of a label, or an
/// opcode and its operand.
pub enum LineModel {
    Label(Seq<char>),
    Code(u64, ExpressionModel),
}

/// A label and its address.
pub type LabelModel = (Seq<char>, nat);

/// A resolved program: the instructions, each an opcode and an operand, and
/// the labels with their addresses.
pub struct ResolvedModel {
    pub instructions: Seq<(u64, i64)>,
    pub symbols: Seq<LabelModel>,
}

/// The index of the first of `names`, from `at` on, that is `name`.
pub open spec fn position(names: Seq<Seq<char>>, name: Seq<char>, at: int) -> Option<int>
    decreases names.len() - at,
{
    if at < 0 || at >= names.len() {
        None
    } else if names[at] == name {
        Some(at)
    } else {
        position(names, name, at + 1)
    }
}

/// The names of macros.
pub open spec fn macro_names(macros: Seq<MacroModel>) -> Seq<Seq<char>> {
    macros.map_values(|declared: MacroModel| declared.name)
}

/// The names of defines.
pub open spec fn define_names(defines: Seq<DefineModel>) -> Seq<Seq<char>> {
    defines.map_values(|declared: DefineModel| declared.0)
}

/// The names of labels.
pub open spec fn label_names(labels: Seq<LabelModel>) -> Seq<Seq<char>> {
    labels.map_values(|label: LabelModel| label.0)
}

/// Pass 1, one item: the declarations after `item`.
pub open spec fn declare(declared: Declarations, item: AstModel) -> Result<
    Declarations,
    ResolveFailure,
> {
    match item {
        AstModel::Define(name, value) => if position(define_names(declared.defines), name, 0)
            is Some {
            Err(ResolveFailure::DuplicateDefine(name))
        } else {
            Ok(
                Declarations {
                    macros: declared.macros,
                    defines: declared.defines.push((name, value)),
                    statements: declared.statements,
                },
            )
        },
        AstModel::MacroCreate(name, parameters, body) => if position(
            macro_names(declared.macros),
            name,
            0,
        ) is Some {
            Err(ResolveFailure::DuplicateMacro(name))
        } else {
            Ok(
                Declarations {
                    macros: declared.macros.push(MacroModel { name, parameters, body }),
                    defines: declared.defines,
                    statements: declared.statements,
                },
            )
        },
        AstModel::Statement(statement) => Ok(
            Declarations {
                macros: declared.macros,
                defines: declared.defines,
                statements: declared.statements.push(statement),
            },
        ),
        AstModel::Include(path) => Err(ResolveFailure::UnresolvedInclude(path)),
        _ => Err(ResolveFailure::MalformedProgram),
    }
}

/// Pass 1 over the first `count` items.
pub open spec fn collect_before(items: Seq<AstModel>, count: int) -> Result<
    Declarations,
    ResolveFailure,
>
    decreases count,
{
    if count <= 0 || count > items.len() {
        Ok(
            Declarations {
                macros: Seq::empty(),
                defines: Seq::empty(),
                statements: Seq::empty(),
            },
        )
    } else {
        match collect_before(items, count - 1) {
            Ok(declared) => declare(declared, items[count - 1]),
            Err(failure) => Err(failure),
        }
    }
}

/// Pass 1: what the items of a program declare.
pub open spec fn collect(items: Seq<AstModel>) -> Result<Declarations, ResolveFailure> {
    collect_before(items, items.len() as int)
}

/// An expression of a macro body with the arguments of a call in place of
/// the parameters: the parameter at place `k` stands for the argument at
/// place `k`; one without an argument stays.
pub open spec fn bind(
    expression: ExpressionModel,
    parameters: Seq<Seq<char>>,
    arguments: Seq<ExpressionModel>,
) -> ExpressionModel
    decreases expression,
{
    match expression {
        ExpressionModel::Binary(operator, left, right) => ExpressionModel::Binary(
            operator,
            Box::new(bind(*left, parameters, arguments)),
            Box::new(bind(*right, parameters, arguments)),
        ),
        ExpressionModel::Literal(_) => expression,
        ExpressionModel::SymbolRef(name) => match position(parameters, name, 0) {
            Some(place) => if place < arguments.len() {
                arguments[place]
            } else {
                expression
            },
            None => expression,
        },
    }
}

/// A statement of a macro body with the arguments of a call in place of the
/// parameters.
pub open spec fn bind_statement(
    statement: StatementModel,
    parameters: Seq<Seq<char>>,
    arguments: Seq<ExpressionModel>,
) -> StatementModel {
    match statement {
        StatementModel::Label(name) => statement,
        StatementModel::Instruction(instruction, operand) => StatementModel::Instruction(
            instruction,
            bind(operand, parameters, arguments),
        ),
        StatementModel::MacroCall(name, inner) => StatementModel::MacroCall(
            name,
            inner.map_values(|argument: ExpressionModel| bind(argument, parameters, arguments)),
        ),
    }
}

/// The body of a macro with the arguments of a call in place of the
/// parameters.
pub open spec fn bind_body(called: MacroModel, arguments: Seq<ExpressionModel>) -> Seq<
    StatementModel,
> {
    called.body.map_values(
        |statement: StatementModel| bind_statement(statement, called.parameters, arguments),
    )
}

/// Pass 2 over the first `count` statements, where calls may nest `depth`
/// deep.
pub open spec fn expand_before(
    statements: Seq<StatementModel>,
    count: int,
    macros: Seq<MacroModel>,
    depth: nat,
) -> Result<Seq<LineModel>, ResolveFailure>
    decreases depth, count,
{
    if count <= 0 || count > statements.len() {
        Ok(Seq::empty())
    } else {
        match expand_before(statements, count - 1, macros, depth) {
            Err(failure) => Err(failure),
            Ok(lines) => match statements[count - 1] {
                StatementModel::Label(name) => Ok(lines.push(LineModel::Label(name))),
                StatementModel::Instruction(instruction, operand) => Ok(
                    lines.push(LineModel::Code(instruction.opcode(), operand)),
                ),
                StatementModel::MacroCall(name, arguments) => match position(
                    macro_names(macros),
                    name,
                    0,
                ) {
                    None => Err(ResolveFailure::UnresolvedSymbol(name)),
                    Some(index) => if depth == 0 {
                        Err(ResolveFailure::ExpansionDepthExceeded)
                    } else {
                        let body = bind_body(macros[index], arguments);
                        match expand_before(body, body.len() as int, macros, (depth - 1) as nat) {
                            Ok(inner) => Ok(lines + inner),
                            Err(failure) => Err(failure),
                        }
                    },
                },
            },
        }
    }
}

/// Pass 2: the statements with every macro call replaced by what it stands
/// for.
pub open spec fn expand(statements: Seq<StatementModel>, macros: Seq<MacroModel>, depth: nat) -> Result<
    Seq<LineModel>,
    ResolveFailure,
> {
    expand_before(statements, statements.len() as int, macros, depth)
}

/// An expression with the values of the defines in place of their names.
/// A value may itself refer to defines; `fuel` bounds how often a name is
/// replaced on the way down, and with as much fuel as there are defines it
/// runs out only on a cycle.
pub open spec fn apply_defines(expression: ExpressionModel, defines: Seq<DefineModel>, fuel: nat) -> Result<
    ExpressionModel,
    ResolveFailure,
>
    decreases fuel, expression,
{
    match expression {
        ExpressionModel::Literal(_) => Ok(expression),
        ExpressionModel::SymbolRef(name) => match position(define_names(defines), name, 0) {
            Some(index) => if fuel == 0 {
                Err(ResolveFailure::CyclicDefine(name))
            } else {
                apply_defines(defines[index].1, defines, (fuel - 1) as nat)
            },
            None => Ok(expression),
        },
        ExpressionModel::Binary(operator, left, right) => match apply_defines(
            *left,
            defines,
            fuel,
        ) {
            Err(failure) => Err(failure),
            Ok(new_left) => match apply_defines(*right, defines, fuel) {
                Err(failure) => Err(failure),
                Ok(new_right) => Ok(
                    ExpressionModel::Binary(operator, Box::new(new_left), Box::new(new_right)),
                ),
            },
        },
    }
}

/// Pass 3 over the first `count` lines.
pub open spec fn define_before(lines: Seq<LineModel>, count: int, defines: Seq<DefineModel>) -> Result<
    Seq<LineModel>,
    ResolveFailure,
>
    decreases count,
{
    if count <= 0 || count > lines.len() {
        Ok(Seq::empty())
    } else {
        match define_before(lines, count - 1, defines) {
            Err(failure) => Err(failure),
            Ok(done) => match lines[count - 1] {
                LineModel::Label(name) => Ok(done.push(LineModel::Label(name))),
                LineModel::Code(opcode, operand) => match apply_defines(
                    operand,
                    defines,
                    defines.len(),
                ) {
                    Ok(value) => Ok(done.push(LineModel::Code(opcode, value))),
                    Err(failure) => Err(failure),
                },
            },
        }
    }
}

/// The number of instructions among the first `count` lines.
pub open spec fn code_count(lines: Seq<LineModel>, count: int) -> nat
    decreases count,
{
    if count <= 0 || count > lines.len() {
        0
    } else if lines[count - 1] is Code {
        code_count(lines, count - 1) + 1
    } else {
        code_count(lines, count - 1)
    }
}

/// Pass 4 over the first `count` lines: the labels declared there, each
/// with the number of instructions before it.
pub open spec fn labels_before(lines: Seq<LineModel>, count: int) -> Result<
    Seq<LabelModel>,
    ResolveFailure,
>
    decreases count,
{
    if count <= 0 || count > lines.len() {
        Ok(Seq::empty())
    } else {
        match labels_before(lines, count - 1) {
            Err(failure) => Err(failure),
            Ok(labels) => match lines[count - 1] {
                LineModel::Label(name) => if position(label_names(labels), name, 0) is Some {
                    Err(ResolveFailure::DuplicateLabel(name))
                } else {
                    Ok(labels.push((name, code_count(lines, count - 1))))
                },
                LineModel::Code(_, _) => Ok(labels),
            },
        }
    }
}

/// An expression with the addresses of the labels in place of their names.
pub open spec fn rewrite(expression: ExpressionModel, labels: Seq<LabelModel>) -> Result<
    ExpressionModel,
    ResolveFailure,
>
    decreases expression,
{
    match expression {
        ExpressionModel::Literal(_) => Ok(expression),
        ExpressionModel::SymbolRef(name) => match position(label_names(labels), name, 0) {
            Some(index) => if labels[index].1 <= i64::MAX {
                Ok(ExpressionModel::Literal(labels[index].1 as i64))
            } else {
                Err(ResolveFailure::ArithmeticOverflow)
            },
            None => Ok(expression),
        },
        ExpressionModel::Binary(operator, left, right) => match rewrite(*left, labels) {
            Err(failure) => Err(failure),
            Ok(new_left) => match rewrite(*right, labels) {
                Err(failure) => Err(failure),
                Ok(new_right) => Ok(
                    ExpressionModel::Binary(operator, Box::new(new_left), Box::new(new_right)),
                ),
            },
        },
    }
}

/// Pass 5 over the first `count` lines.
pub open spec fn rewrite_before(lines: Seq<LineModel>, count: int, labels: Seq<LabelModel>) -> Result<
    Seq<LineModel>,
    ResolveFailure,
>
    decreases count,
{
    if count <= 0 || count > lines.len() {
        Ok(Seq::empty())
    } else {
        match rewrite_before(lines, count - 1, labels) {
            Err(failure) => Err(failure),
            Ok(done) => match lines[count - 1] {
                LineModel::Label(name) => Ok(done.push(LineModel::Label(name))),
                LineModel::Code(opcode, operand) => match rewrite(operand, labels) {
                    Ok(value) => Ok(done.push(LineModel::Code(opcode, value))),
                    Err(failure) => Err(failure),
                },
            },
        }
    }
}

/// The quotient of two integers, rounded toward zero.
pub open spec fn quotient(dividend: int, divisor: int) -> int {
    if dividend == 0 {
        0
    } else if dividend > 0 && divisor > 0 {
        dividend / divisor
    } else if dividend < 0 && divisor < 0 {
        (-dividend) / (-divisor)
    } else if dividend < 0 {
        -((-dividend) / divisor)
    } else {
        -(dividend / (-divisor))
    }
}

/// The result of a binary operator on two 64-bit numbers.
pub open spec fn apply(operator: Operator, left: int, right: int) -> Result<int, ResolveFailure> {
    let exact = match operator {
        Operator::Add => left + right,
        Operator::Sub => left - right,
        Operator::Mult => left * right,
        Operator::Div => quotient(left, right),
    };
    if operator == Operator::Div && right == 0 {
        Err(ResolveFailure::DivisionByZero)
    } else if i64::MIN <= exact <= i64::MAX {
        Ok(exact)
    } else {
        Err(ResolveFailure::ArithmeticOverflow)
    }
}

/// The value of an expression.  A name that is still there refers to
/// nothing.
pub open spec fn evaluate(expression: ExpressionModel) -> Result<int, ResolveFailure>
    decreases expression,
{
    match expression {
        ExpressionModel::Literal(value) => Ok(value as int),
        ExpressionModel::SymbolRef(name) => Err(ResolveFailure::UnresolvedSymbol(name)),
        ExpressionModel::Binary(operator, left, right) => match evaluate(*left) {
            Err(failure) => Err(failure),
            Ok(left_value) => match evaluate(*right) {
                Err(failure) => Err(failure),
                Ok(right_value) => apply(operator, left_value, right_value),
            },
        },
    }
}

/// Passes 6 and 7 over the first `count` lines: the instructions there,
/// each with its opcode and the value of its operand.
pub open spec fn emit_before(lines: Seq<LineModel>, count: int) -> Result<
    Seq<(u64, i64)>,
    ResolveFailure,
>
    decreases count,
{
    if count <= 0 || count > lines.len() {
        Ok(Seq::empty())
    } else {
        match emit_before(lines, count - 1) {
            Err(failure) => Err(failure),
            Ok(done) => match lines[count - 1] {
                LineModel::Label(_) => Ok(done),
                LineModel::Code(opcode, operand) => match evaluate(operand) {
                    Ok(value) => Ok(done.push((opcode, value as i64))),
                    Err(failure) => Err(failure),
                },
            },
        }
    }
}

/// Passes 3 to 7: the resolved program for lines without macro calls.
pub open spec fn assemble(lines: Seq<LineModel>, defines: Seq<DefineModel>) -> Result<
    ResolvedModel,
    ResolveFailure,
> {
    match define_before(lines, lines.len() as int, defines) {
        Err(failure) => Err(failure),
        Ok(plain) => match labels_before(plain, plain.len() as int) {
            Err(failure) => Err(failure),
            Ok(labels) => match rewrite_before(plain, plain.len() as int, labels) {
                Err(failure) => Err(failure),
                Ok(closed) => match emit_before(closed, closed.len() as int) {
                    Err(failure) => Err(failure),
                    Ok(instructions) => Ok(ResolvedModel { instructions, symbols: labels }),
                },
            },
        },
    }
}

/// Passes 2 to 7: the resolved program for what a program declares.
pub open spec fn link(declared: Declarations, depth: nat) -> Result<ResolvedModel, ResolveFailure> {
    match expand(declared.statements, declared.macros, depth) {
        Err(failure) => Err(failure),
        Ok(lines) => assemble(lines, declared.defines),
    }
}

/// The resolved program for a syntax tree.
pub open spec fn resolve_model(program: AstModel) -> Result<ResolvedModel, ResolveFailure> {
    match program {
        AstModel::Program(items) => match collect(items) {
            Err(failure) => Err(failure),
            Ok(declared) => link(declared, MAX_EXPANSION_DEPTH as nat),
        },
        _ => Err(ResolveFailure::MalformedProgram),
    }
}

/// A failure among the first items is the failure of pass 1.
pub proof fn lemma_collect_fails(items: Seq<AstModel>, early: int, count: int)
    requires
        0 <= early <= count <= items.len(),
        collect_before(items, early) is Err,
    ensures
        collect_before(items, count) == collect_before(items, early),
    decreases count - early,
{
    if early < count {
        lemma_collect_fails(items, early, count - 1);
    }
}

/// A failure among the first statements is the failure of pass 2.
pub proof fn lemma_expand_fails(
    statements: Seq<StatementModel>,
    early: int,
    count: int,
    macros: Seq<MacroModel>,
    depth: nat,
)
    requires
        0 <= early <= count <= statements.len(),
        expand_before(statements, early, macros, depth) is Err,
    ensures
        expand_before(statements, count, macros, depth) == expand_before(
            statements,
            early,
            macros,
            depth,
        ),
    decreases count - early,
{
    if early < count {
        lemma_expand_fails(statements, early, count - 1, macros, depth);
    }
}

/// A failure among the first lines is the failure of pass 3.
pub proof fn lemma_define_fails(
    lines: Seq<LineModel>,
    early: int,
    count: int,
    defines: Seq<DefineModel>,
)
    requires
        0 <= early <= count <= lines.len(),
        define_before(lines, early, defines) is Err,
    ensures
        define_before(lines, count, defines) == define_before(lines, early, defines),
    decreases count - early,
{
    if early < count {
        lemma_define_fails(lines, early, count - 1, defines);
    }
}

/// A failure among the first lines is the failure of pass 4.
pub proof fn lemma_labels_fail(lines: Seq<LineModel>, early: int, count: int)
    requires
        0 <= early <= count <= lines.len(),
        labels_before(lines, early) is Err,
    ensures
        labels_before(lines, count) == labels_before(lines, early),
    decreases count - early,
{
    if early < count {
        lemma_labels_fail(lines, early, count - 1);
    }
}

/// A failure among the first lines is the failure of pass 5.
pub proof fn lemma_rewrite_fails(
    lines: Seq<LineModel>,
    early: int,
    count: int,
    labels: Seq<LabelModel>,
)
    requires
        0 <= early <= count <= lines.len(),
        rewrite_before(lines, early, labels) is Err,
    ensures
        rewrite_before(lines, count, labels) == rewrite_before(lines, early, labels),
    decreases count - early,
{
    if early < count {
        lemma_rewrite_fails(lines, early, count - 1, labels);
    }
}

/// A failure among the first lines is the failure of passes 6 and 7.
pub proof fn lemma_emit_fails(lines: Seq<LineModel>, early: int, count: int)
    requires
        0 <= early <= count <= lines.len(),
        emit_before(lines, early) is Err,
    ensures
        emit_before(lines, count) == emit_before(lines, early),
    decreases count - early,
{
    if early < count {
        lemma_emit_fails(lines, early, count - 1);
    }
}

/// A name has a position among `names` exactly if it occurs there, and the
/// position is that of its first occurrence.
pub proof fn lemma_position(names: Seq<Seq<char>>, name: Seq<char>, at: int)
    requires
        0 <= at <= names.len(),
    ensures
        match position(names, name, at) {
            Some(index) => at <= index < names.len() && names[index] == name && forall|i: int|
                at <= i < index ==> names[i] != name,
            None => forall|i: int| at <= i < names.len() ==> names[i] != name,
        },
    decreases names.len() - at,
{
    if at < names.len() && names[at] != name {
        lemma_position(names, name, at + 1);
    }
}

/// Two sequences of lines of the same shape: as long as each other, with
/// the same labels and the same opcodes at the same places.
pub open spec fn same_shape(first: Seq<LineModel>, second: Seq<LineModel>) -> bool {
    &&& first.len() == second.len()
    &&& forall|i: int|
        0 <= i < first.len() ==> match #[trigger] first[i] {
            LineModel::Label(name) => second[i] == LineModel::Label(name),
            LineModel::Code(opcode, _) => second[i] matches LineModel::Code(other, _) && other
                == opcode,
        }
}

/// Pass 3 keeps the shape of the lines.
pub proof fn lemma_define_shape(lines: Seq<LineModel>, count: int, defines: Seq<DefineModel>)
    requires
        0 <= count <= lines.len(),
    ensures
        define_before(lines, count, defines) matches Ok(plain) ==> same_shape(
            lines.take(count),
            plain,
        ),
    decreases count,
{
    if count > 0 {
        lemma_define_shape(lines, count - 1, defines);
        match define_before(lines, count, defines) {
            Ok(plain) => {
                let shorter = define_before(lines, count - 1, defines)->Ok_0;
                assert forall|i: int| 0 <= i < count implies match #[trigger] lines.take(count)[i] {
                    LineModel::Label(name) => plain[i] == LineModel::Label(name),
                    LineModel::Code(opcode, _) => plain[i] matches LineModel::Code(other, _)
                        && other == opcode,
                } by {
                    if i < count - 1 {
                        assert(lines.take(count - 1)[i] == lines[i]);
                        assert(plain[i] == shorter[i]);
                    }
                }
            },
            Err(_) => {},
        }
    }
}

/// Pass 5 keeps the shape of the lines.
pub proof fn lemma_rewrite_shape(lines: Seq<LineModel>, count: int, labels: Seq<LabelModel>)
    requires
        0 <= count <= lines.len(),
    ensures
        rewrite_before(lines, count, labels) matches Ok(closed) ==> same_shape(
            lines.take(count),
            closed,
        ),
    decreases count,
{
    if count > 0 {
        lemma_rewrite_shape(lines, count - 1, labels);
        match rewrite_before(lines, count, labels) {
            Ok(closed) => {
                let shorter = rewrite_before(lines, count - 1, labels)->Ok_0;
                assert forall|i: int| 0 <= i < count implies match #[trigger] lines.take(count)[i] {
                    LineModel::Label(name) => closed[i] == LineModel::Label(name),
                    LineModel::Code(opcode, _) => closed[i] matches LineModel::Code(other, _)
                        && other == opcode,
                } by {
                    if i < count - 1 {
                        assert(lines.take(count - 1)[i] == lines[i]);
                        assert(closed[i] == shorter[i]);
                    }
                }
            },
            Err(_) => {},
        }
    }
}

/// Lines of the same shape hold the same number of instructions.
pub proof fn lemma_shape_count(first: Seq<LineModel>, second: Seq<LineModel>, count: int)
    requires
        same_shape(first, second),
        0 <= count <= first.len(),
    ensures
        code_count(first, count) == code_count(second, count),
    decreases count,
{
    if count > 0 {
        lemma_shape_count(first, second, count - 1);
        assert(first[count - 1] is Code == second[count - 1] is Code);
    }
}

/// Passes 6 and 7 list one instruction for each instruction among the
/// lines.
pub proof fn lemma_emit_count(lines: Seq<LineModel>, count: int)
    requires
        0 <= count <= lines.len(),
    ensures
        emit_before(lines, count) matches Ok(instructions) ==> instructions.len() == code_count(
            lines,
            count,
        ),
    decreases count,
{
    if count > 0 {
        lemma_emit_count(lines, count - 1);
    }
}

/// A resolved program holds one instruction for each instruction among the
/// lines it was assembled from.
pub proof fn lemma_assemble_count(lines: Seq<LineModel>, defines: Seq<DefineModel>)
    ensures
        assemble(lines, defines) matches Ok(resolved) ==> resolved.instructions.len()
            == code_count(lines, lines.len() as int),
{
    let whole = lines.len() as int;
    match define_before(lines, whole, defines) {
        Ok(plain) => {
            lemma_define_shape(lines, whole, defines);
            assert(lines.take(whole) =~= lines);
            lemma_shape_count(lines, plain, whole);
            match labels_before(plain, whole) {
                Ok(labels) => {
                    lemma_rewrite_shape(plain, whole, labels);
                    assert(plain.take(whole) =~= plain);
                    match rewrite_before(plain, whole, labels) {
                        Ok(closed) => {
                            lemma_shape_count(plain, closed, whole);
                            lemma_emit_count(closed, whole);
                        },
                        Err(_) => {},
                    }
                },
                Err(_) => {},
            }
        },
        Err(_) => {},
    }
}

/// Whether a program declares no macro and no define and holds no label:
/// every item is an instruction.
pub open spec fn only_instructions(items: Seq<AstModel>) -> bool {
    forall|i: int|
        0 <= i < items.len() ==> ((#[trigger] items[i]) matches AstModel::Statement(statement)
            && statement is Instruction)
}

proof fn lemma_collect_plain(items: Seq<AstModel>, count: int)
    requires
        only_instructions(items),
        0 <= count <= items.len(),
    ensures
        collect_before(items, count) matches Ok(declared) && declared.macros.len() == 0
            && declared.defines.len() == 0 && declared.statements.len() == count && forall|
            i: int,
        |
            0 <= i < count ==> (#[trigger] declared.statements[i]) is Instruction,
    decreases count,
{
    if count > 0 {
        lemma_collect_plain(items, count - 1);
        assert(items[count - 1] is Statement);
    }
}

proof fn lemma_expand_plain(
    statements: Seq<StatementModel>,
    count: int,
    macros: Seq<MacroModel>,
    depth: nat,
)
    requires
        0 <= count <= statements.len(),
        forall|i: int| 0 <= i < count ==> (#[trigger] statements[i]) is Instruction,
    ensures
        expand_before(statements, count, macros, depth) matches Ok(lines) && lines.len() == count
            && code_count(lines, count) == count,
    decreases count,
{
    if count > 0 {
        lemma_expand_plain(statements, count - 1, macros, depth);
        assert(statements[count - 1] is Instruction);
        let shorter = expand_before(statements, count - 1, macros, depth)->Ok_0;
        let lines = expand_before(statements, count, macros, depth)->Ok_0;
        lemma_code_count_prefix(lines, shorter, count - 1);
    }
}

/// The number of instructions among the first lines depends on those lines
/// alone.
pub proof fn lemma_code_count_prefix(long: Seq<LineModel>, short: Seq<LineModel>, count: int)
    requires
        0 <= count <= short.len() <= long.len(),
        forall|i: int| 0 <= i < count ==> long[i] == short[i],
    ensures
        code_count(long, count) == code_count(short, count),
    decreases count,
{
    if count > 0 {
        lemma_code_count_prefix(long, short, count - 1);
    }
}

/// Where a program declares no macro and no define and holds no label, and
/// can be resolved, it resolves to as many instructions as it has
/// statements.
pub proof fn lemma_plain_program_length(items: Seq<AstModel>)
    requires
        only_instructions(items),
        resolve_model(AstModel::Program(items)) is Ok,
    ensures
        resolve_model(AstModel::Program(items))->Ok_0.instructions.len() == items.len(),
{
    lemma_collect_plain(items, items.len() as int);
    let declared = collect(items)->Ok_0;
    lemma_expand_plain(
        declared.statements,
        declared.statements.len() as int,
        declared.macros,
        MAX_EXPANSION_DEPTH as nat,
    );
    let lines = expand(declared.statements, declared.macros, MAX_EXPANSION_DEPTH as nat)->Ok_0;
    lemma_assemble_count(lines, declared.defines);
}

/// Pass 4 fails only on a label that is declared twice, and while it has
/// not failed it has listed every label.
proof fn lemma_labels_listed(lines: Seq<LineModel>, count: int)
    requires
        0 <= count <= lines.len(),
    ensures
        match labels_before(lines, count) {
            Ok(labels) => forall|i: int|
                0 <= i < count ==> ((#[trigger] lines[i]) matches LineModel::Label(name)
                    ==> position(label_names(labels), name, 0) is Some),
            Err(failure) => failure is DuplicateLabel,
        },
    decreases count,
{
    if count > 0 {
        lemma_labels_listed(lines, count - 1);
        match labels_before(lines, count - 1) {
            Ok(labels) => {
                match labels_before(lines, count) {
                    Ok(longer) => {
                        assert forall|i: int| 0 <= i < count implies ((
                        #[trigger] lines[i]) matches LineModel::Label(name) ==> position(
                            label_names(longer),
                            name,
                            0,
                        ) is Some) by {
                            match lines[i] {
                                LineModel::Label(name) => {
                                    lemma_position(label_names(labels), name, 0);
                                    lemma_position(label_names(longer), name, 0);
                                    if i < count - 1 {
                                        let found = position(label_names(labels), name, 0)->Some_0;
                                        assert(label_names(longer)[found] == name);
                                    } else {
                                        assert(label_names(longer)[longer.len() - 1] == name);
                                    }
                                },
                                _ => {},
                            }
                        }
                    },
                    Err(_) => {},
                }
            },
            Err(_) => {},
        }
    }
}

/// Where two lines declare a label of the same name, pass 4 fails with a
/// duplicate label.
pub proof fn lemma_duplicate_label(lines: Seq<LineModel>, first: int, second: int)
    requires
        0 <= first < second < lines.len(),
        lines[first] is Label,
        lines[second] == lines[first],
    ensures
        labels_before(lines, lines.len() as int) matches Err(failure) && failure
            is DuplicateLabel,
{
    lemma_labels_listed(lines, second);
    lemma_labels_listed(lines, second + 1);
    match labels_before(lines, second) {
        Ok(labels) => {
            assert(lines[first] is Label);
            assert(labels_before(lines, second + 1) is Err);
        },
        Err(_) => {},
    }
    lemma_labels_fail(lines, second + 1, lines.len() as int);
}

/// A label defined twice yields a duplicate-label failure: where two lines
/// declare a label of the same name and the defines can be replaced, the
/// program is not assembled for that reason.
pub proof fn lemma_label_twice(
    lines: Seq<LineModel>,
    defines: Seq<DefineModel>,
    first: int,
    second: int,
)
    requires
        0 <= first < second < lines.len(),
        lines[first] is Label,
        lines[second] == lines[first],
        define_before(lines, lines.len() as int, defines) is Ok,
    ensures
        assemble(lines, defines) matches Err(failure) && failure is DuplicateLabel,
{
    let whole = lines.len() as int;
    let plain = define_before(lines, whole, defines)->Ok_0;
    lemma_define_shape(lines, whole, defines);
    assert(lines.take(whole) =~= lines);
    assert(lines.take(whole)[first] is Label);
    assert(lines.take(whole)[second] is Label);
    lemma_duplicate_label(plain, first, second);
}

/// Whether an expression refers to `name`.
pub open spec fn mentions(expression: ExpressionModel, name: Seq<char>) -> bool
    decreases expression,
{
    match expression {
        ExpressionModel::Literal(_) => false,
        ExpressionModel::SymbolRef(other) => other == name,
        ExpressionModel::Binary(_, left, right) => mentions(*left, name) || mentions(
            *right,
            name,
        ),
    }
}

/// A label referenced but never declared makes the evaluation fail: an
/// operand that refers to a name without an address has no value, and the
/// bare reference fails as an unresolved symbol of that name.
pub proof fn lemma_unresolved(expression: ExpressionModel, labels: Seq<LabelModel>, name: Seq<char>)
    requires
        mentions(expression, name),
        position(label_names(labels), name, 0) is None,
    ensures
        rewrite(expression, labels) matches Ok(closed) ==> evaluate(closed) is Err,
        expression == ExpressionModel::SymbolRef(name) ==> rewrite(expression, labels) == Ok::<
            ExpressionModel,
            ResolveFailure,
        >(expression) && evaluate(expression) == Err::<int, ResolveFailure>(
            ResolveFailure::UnresolvedSymbol(name),
        ),
    decreases expression,
{
    match expression {
        ExpressionModel::Binary(_, left, right) => {
            if mentions(*left, name) {
                lemma_unresolved(*left, labels, name);
            }
            if mentions(*right, name) {
                lemma_unresolved(*right, labels, name);
            }
        },
        _ => {},
    }
}

/// Pass 2 over the first statements depends on those statements alone.
pub proof fn lemma_expand_prefix(
    long: Seq<StatementModel>,
    short: Seq<StatementModel>,
    count: int,
    macros: Seq<MacroModel>,
    depth: nat,
)
    requires
        0 <= count <= short.len() <= long.len(),
        forall|i: int| 0 <= i < count ==> long[i] == short[i],
    ensures
        expand_before(long, count, macros, depth) == expand_before(short, count, macros, depth),
    decreases count,
{
    if count > 0 {
        lemma_expand_prefix(long, short, count - 1, macros, depth);
    }
}

/// What pass 2 makes of two sequences of statements, one after the other:
/// the lines of the first and then the lines of the second, or the first
/// failure.
pub open spec fn joined(
    first: Result<Seq<LineModel>, ResolveFailure>,
    second: Result<Seq<LineModel>, ResolveFailure>,
) -> Result<Seq<LineModel>, ResolveFailure> {
    match first {
        Err(failure) => Err(failure),
        Ok(lines) => match second {
            Err(failure) => Err(failure),
            Ok(more) => Ok(lines + more),
        },
    }
}

proof fn lemma_expand_joined_before(
    first: Seq<StatementModel>,
    second: Seq<StatementModel>,
    count: int,
    macros: Seq<MacroModel>,
    depth: nat,
)
    requires
        0 <= count <= second.len(),
    ensures
        expand_before(first + second, first.len() + count, macros, depth) == joined(
            expand(first, macros, depth),
            expand_before(second, count, macros, depth),
        ),
    decreases count,
{
    let both = first + second;
    if count == 0 {
        lemma_expand_prefix(both, first, first.len() as int, macros, depth);
        match expand(first, macros, depth) {
            Ok(lines) => {
                assert(lines + Seq::<LineModel>::empty() =~= lines);
            },
            Err(_) => {},
        }
    } else {
        lemma_expand_joined_before(first, second, count - 1, macros, depth);
        assert(both[first.len() + count - 1] == second[count - 1]);
        match expand(first, macros, depth) {
            Ok(lines) => {
                match expand_before(second, count - 1, macros, depth) {
                    Ok(more) => {
                        match second[count - 1] {
                            StatementModel::Label(name) => {
                                assert((lines + more).push(LineModel::Label(name)) =~= lines
                                    + more.push(LineModel::Label(name)));
                            },
                            StatementModel::Instruction(instruction, operand) => {
                                let line = LineModel::Code(instruction.opcode(), operand);
                                assert((lines + more).push(line) =~= lines + more.push(line));
                            },
                            StatementModel::MacroCall(name, arguments) => {
                                match position(macro_names(macros), name, 0) {
                                    Some(index) => {
                                        if depth > 0 {
                                            let body = bind_body(macros[index], arguments);
                                            match expand_before(
                                                body,
                                                body.len() as int,
                                                macros,
                                                (depth - 1) as nat,
                                            ) {
                                                Ok(inner) => {
                                                    assert((lines + more) + inner =~= lines + (more
                                                        + inner));
                                                },
                                                Err(_) => {},
                                            }
                                        }
                                    },
                                    None => {},
                                }
                            },
                        }
                    },
                    Err(_) => {},
                }
            },
            Err(_) => {},
        }
    }
}

/// Pass 2 goes statement by statement: what it makes of two sequences of
/// statements put together is what it makes of each, put together.
pub proof fn lemma_expand_joined(
    first: Seq<StatementModel>,
    second: Seq<StatementModel>,
    macros: Seq<MacroModel>,
    depth: nat,
)
    ensures
        expand(first + second, macros, depth) == joined(
            expand(first, macros, depth),
            expand(second, macros, depth),
        ),
{
    lemma_expand_joined_before(first, second, second.len() as int, macros, depth);
}

/// What pass 2 achieves with calls nested `depth` deep it achieves, with
/// the same lines, when they may nest deeper.
pub proof fn lemma_expand_deeper(
    statements: Seq<StatementModel>,
    count: int,
    macros: Seq<MacroModel>,
    depth: nat,
)
    requires
        expand_before(statements, count, macros, depth) is Ok,
    ensures
        expand_before(statements, count, macros, depth + 1) == expand_before(
            statements,
            count,
            macros,
            depth,
        ),
    decreases depth, count,
{
    if 0 < count <= statements.len() {
        lemma_expand_deeper(statements, count - 1, macros, depth);
        match statements[count - 1] {
            StatementModel::MacroCall(name, arguments) => {
                match position(macro_names(macros), name, 0) {
                    Some(index) => {
                        let body = bind_body(macros[index], arguments);
                        lemma_expand_deeper(body, body.len() as int, macros, (depth - 1) as nat);
                    },
                    None => {},
                }
            },
            _ => {},
        }
    }
}

/// A macro call stands for the body of its macro: where a program with a
/// call can be resolved, the program that holds, in place of the call, the
/// body of the macro with the arguments in place of the parameters resolves
/// to the same instructions and the same addresses.
pub proof fn lemma_call_is_inline(
    declared: Declarations,
    before: Seq<StatementModel>,
    name: Seq<char>,
    arguments: Seq<ExpressionModel>,
    after: Seq<StatementModel>,
    depth: nat,
)
    requires
        declared.statements == before + seq![StatementModel::MacroCall(name, arguments)] + after,
        link(declared, depth) is Ok,
    ensures
        position(macro_names(declared.macros), name, 0) matches Some(index) && link(
            Declarations {
                macros: declared.macros,
                defines: declared.defines,
                statements: before + bind_body(declared.macros[index], arguments) + after,
            },
            depth,
        ) == link(declared, depth),
{
    let macros = declared.macros;
    let call = seq![StatementModel::MacroCall(name, arguments)];
    lemma_expand_joined(before + call, after, macros, depth);
    lemma_expand_joined(before, call, macros, depth);
    assert(expand(call, macros, depth) is Ok);
    assert(expand_before(call, 0, macros, depth) == Ok::<Seq<LineModel>, ResolveFailure>(
        Seq::empty(),
    ));
    assert(call[0] == StatementModel::MacroCall(name, arguments));
    let index = position(macro_names(macros), name, 0)->Some_0;
    let body = bind_body(macros[index], arguments);
    let inner = expand(body, macros, (depth - 1) as nat)->Ok_0;
    assert(expand(call, macros, depth) == Ok::<Seq<LineModel>, ResolveFailure>(
        Seq::<LineModel>::empty() + inner,
    ));
    assert(Seq::<LineModel>::empty() + inner =~= inner);
    lemma_expand_deeper(body, body.len() as int, macros, (depth - 1) as nat);
    lemma_expand_joined(before + body, after, macros, depth);
    lemma_expand_joined(before, body, macros, depth);
}

/// Pass 1 keeps the statements in order: what it has collected of the
/// first items it still has, at the same places, when it has gone through
/// more of them; and a statement among the items is the last statement
/// collected when pass 1 has just gone through it.
pub proof fn lemma_collect_extends(items: Seq<AstModel>, early: int, count: int)
    requires
        0 <= early <= count <= items.len(),
        collect_before(items, count) is Ok,
    ensures
        collect_before(items, early) matches Ok(fewer) && fewer.statements.len()
            <= collect_before(items, count)->Ok_0.statements.len() && forall|i: int|
            0 <= i < fewer.statements.len() ==> collect_before(
                items,
                count,
            )->Ok_0.statements[i] == fewer.statements[i],
        early > 0 ==> (items[early - 1] matches AstModel::Statement(statement) ==> {
            let fewer = collect_before(items, early)->Ok_0;
            fewer.statements.len() > 0 && fewer.statements.last() == statement
        }),
    decreases count - early,
{
    if early < count {
        lemma_collect_extends(items, early, count - 1);
        lemma_collect_extends(items, count - 1, count - 1);
    }
}

/// Pass 2 keeps the lines in order: what it has made of the first
/// statements it still has, at the same places, when it has gone through
/// more of them; and a label among the statements is the last line when
/// pass 2 has just gone through it.
pub proof fn lemma_expand_extends(
    statements: Seq<StatementModel>,
    early: int,
    count: int,
    macros: Seq<MacroModel>,
    depth: nat,
)
    requires
        0 <= early <= count <= statements.len(),
        expand_before(statements, count, macros, depth) is Ok,
    ensures
        expand_before(statements, early, macros, depth) matches Ok(fewer) && fewer.len()
            <= expand_before(statements, count, macros, depth)->Ok_0.len() && forall|i: int|
            0 <= i < fewer.len() ==> expand_before(statements, count, macros, depth)->Ok_0[i]
                == fewer[i],
        early > 0 ==> (statements[early - 1] matches StatementModel::Label(name) ==> {
            let fewer = expand_before(statements, early, macros, depth)->Ok_0;
            fewer.len() > 0 && fewer.last() == LineModel::Label(name)
        }),
    decreases count - early,
{
    if early < count {
        lemma_expand_extends(statements, early, count - 1, macros, depth);
        lemma_expand_extends(statements, count - 1, count - 1, macros, depth);
    }
}

/// A label defined twice yields a duplicate-label failure: a program in
/// which two statements declare a label of the same name is never resolved,
/// and where its macros can be expanded and its defines replaced the
/// failure is that of a duplicate label.
pub proof fn lemma_resolve_label_twice(items: Seq<AstModel>, first: int, second: int)
    requires
        0 <= first < second < items.len(),
        items[first] matches AstModel::Statement(statement) && statement is Label,
        items[second] == items[first],
    ensures
        resolve_model(AstModel::Program(items)) is Err,
        (collect(items) matches Ok(declared) && expand(
            declared.statements,
            declared.macros,
            MAX_EXPANSION_DEPTH as nat,
        ) matches Ok(lines) && define_before(lines, lines.len() as int, declared.defines) is Ok)
            ==> resolve_model(AstModel::Program(items))->Err_0 is DuplicateLabel,
{
    let depth = MAX_EXPANSION_DEPTH as nat;
    if collect(items) is Ok {
        let declared = collect(items)->Ok_0;
        let statements = declared.statements;
        let whole = items.len() as int;
        lemma_collect_extends(items, first + 1, whole);
        lemma_collect_extends(items, second, whole);
        lemma_collect_extends(items, second + 1, whole);
        lemma_collect_extends(items, first + 1, second);
        let one = collect_before(items, first + 1)->Ok_0.statements.len() - 1;
        let two = collect_before(items, second + 1)->Ok_0.statements.len() - 1;
        assert(collect_before(items, second + 1)->Ok_0.statements == collect_before(
            items,
            second,
        )->Ok_0.statements.push(items[second]->Statement_0));
        assert(0 <= one < two < statements.len());
        assert(statements[one] == items[first]->Statement_0);
        assert(statements[two] == items[second]->Statement_0);
        if expand(statements, declared.macros, depth) is Ok {
            let lines = expand(statements, declared.macros, depth)->Ok_0;
            let all = statements.len() as int;
            lemma_expand_extends(statements, one + 1, all, declared.macros, depth);
            lemma_expand_extends(statements, two, all, declared.macros, depth);
            lemma_expand_extends(statements, two + 1, all, declared.macros, depth);
            lemma_expand_extends(statements, one + 1, two, declared.macros, depth);
            let upper = expand_before(statements, one + 1, declared.macros, depth)->Ok_0.len() - 1;
            let lower = expand_before(statements, two + 1, declared.macros, depth)->Ok_0.len() - 1;
            assert(expand_before(statements, two + 1, declared.macros, depth)->Ok_0
                == expand_before(statements, two, declared.macros, depth)->Ok_0.push(
                LineModel::Label(statements[two]->Label_0),
            ));
            assert(0 <= upper < lower < lines.len());
            assert(lines[upper] == LineModel::Label(statements[one]->Label_0));
            assert(lines[lower] == lines[upper]);
            if define_before(lines, lines.len() as int, declared.defines) is Ok {
                lemma_label_twice(lines, declared.defines, upper, lower);
            }
        }
    }
}

/// Whether one of the statements calls the macro `name`.
pub open spec fn calls(statements: Seq<StatementModel>, name: Seq<char>) -> bool {
    exists|i: int|
        0 <= i < statements.len() && ((#[trigger] statements[i]) matches StatementModel::MacroCall(
            called,
            _,
        ) && called == name)
}

/// Taking one name out of a sequence of names leaves every other name
/// where a search finds it: at the same entry as before.
pub proof fn lemma_position_without(names: Seq<Seq<char>>, index: int, name: Seq<char>)
    requires
        0 <= index < names.len(),
        names[index] != name,
    ensures
        match position(names, name, 0) {
            Some(place) => place != index && position(names.remove(index), name, 0) == Some(
                if place < index {
                    place
                } else {
                    place - 1
                },
            ),
            None => position(names.remove(index), name, 0) is None,
        },
{
    let fewer = names.remove(index);
    lemma_position(names, name, 0);
    lemma_position(fewer, name, 0);
    match position(names, name, 0) {
        Some(place) => {
            let moved = if place < index {
                place
            } else {
                place - 1
            };
            assert(fewer[moved] == name);
            match position(fewer, name, 0) {
                Some(found) => {
                    if found < moved {
                        let back = if found < index {
                            found
                        } else {
                            found + 1
                        };
                        assert(names[back] == fewer[found]);
                    }
                },
                None => {},
            }
        },
        None => {
            match position(fewer, name, 0) {
                Some(found) => {
                    let back = if found < index {
                        found
                    } else {
                        found + 1
                    };
                    assert(names[back] == fewer[found]);
                },
                None => {},
            }
        },
    }
}

/// Pass 2 does not depend on a macro that is never called: with that macro
/// taken out of the declarations it makes the same lines of statements that
/// do not call it, where no other macro calls it either.
pub proof fn lemma_expand_without(
    statements: Seq<StatementModel>,
    count: int,
    macros: Seq<MacroModel>,
    index: int,
    depth: nat,
)
    requires
        0 <= index < macros.len(),
        !calls(statements, macros[index].name),
        forall|k: int|
            0 <= k < macros.remove(index).len() ==> !calls(
                (#[trigger] macros.remove(index)[k]).body,
                macros[index].name,
            ),
    ensures
        expand_before(statements, count, macros.remove(index), depth) == expand_before(
            statements,
            count,
            macros,
            depth,
        ),
    decreases depth, count,
{
    let name = macros[index].name;
    let rest = macros.remove(index);
    if 0 < count <= statements.len() {
        lemma_expand_without(statements, count - 1, macros, index, depth);
        match statements[count - 1] {
            StatementModel::MacroCall(called, arguments) => {
                assert(called != name);
                assert(macro_names(rest) =~= macro_names(macros).remove(index));
                lemma_position_without(macro_names(macros), index, called);
                lemma_position(macro_names(macros), called, 0);
                match position(macro_names(macros), called, 0) {
                    Some(place) => {
                        let moved = if place < index {
                            place
                        } else {
                            place - 1
                        };
                        assert(rest[moved] == macros[place]);
                        if depth > 0 {
                            let body = bind_body(macros[place], arguments);
                            assert(!calls(body, name)) by {
                                if calls(body, name) {
                                    let i = choose|i: int|
                                        0 <= i < body.len() && ((
                                        #[trigger] body[i]) matches StatementModel::MacroCall(
                                            inner,
                                            _,
                                        ) && inner == name);
                                    let written = macros[place].body[i];
                                    assert(body[i] == bind_statement(
                                        written,
                                        macros[place].parameters,
                                        arguments,
                                    ));
                                    assert(written matches StatementModel::MacroCall(inner, _)
                                        && inner == name);
                                    assert(rest[moved].body[i] == written);
                                    assert(calls(rest[moved].body, name));
                                }
                            }
                            lemma_expand_without(
                                body,
                                body.len() as int,
                                macros,
                                index,
                                (depth - 1) as nat,
                            );
                        }
                    },
                    None => {},
                }
            },
            _ => {},
        }
    }
}

/// A macro call stands for the body of its macro, also where the macro is
/// no longer declared: where a program with one call of a macro can be
/// resolved, the program that holds the body in place of the call, with
/// the arguments in place of the parameters, and that does not declare the
/// macro, resolves to the same instructions and the same addresses.
pub proof fn lemma_call_is_inline_undeclared(
    declared: Declarations,
    before: Seq<StatementModel>,
    name: Seq<char>,
    arguments: Seq<ExpressionModel>,
    after: Seq<StatementModel>,
    depth: nat,
)
    requires
        declared.statements == before + seq![StatementModel::MacroCall(name, arguments)] + after,
        link(declared, depth) is Ok,
        ({
            let index = position(macro_names(declared.macros), name, 0)->Some_0;
            let body = bind_body(declared.macros[index], arguments);
            &&& !calls(before + body + after, name)
            &&& forall|k: int|
                0 <= k < declared.macros.remove(index).len() ==> !calls(
                    (#[trigger] declared.macros.remove(index)[k]).body,
                    name,
                )
        }),
    ensures
        position(macro_names(declared.macros), name, 0) matches Some(index) && link(
            Declarations {
                macros: declared.macros.remove(index),
                defines: declared.defines,
                statements: before + bind_body(declared.macros[index], arguments) + after,
            },
            depth,
        ) == link(declared, depth),
{
    lemma_call_is_inline(declared, before, name, arguments, after, depth);
    let index = position(macro_names(declared.macros), name, 0)->Some_0;
    lemma_position(macro_names(declared.macros), name, 0);
    let inline = before + bind_body(declared.macros[index], arguments) + after;
    assert(declared.macros[index].name == name);
    lemma_expand_without(inline, inline.len() as int, declared.macros, index, depth);
}

} // verus!
