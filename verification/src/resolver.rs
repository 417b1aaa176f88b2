//! The resolver: from a syntax tree to a flat list of instructions.
//!
//! Each function here carries out one of the passes of
//! [`crate::resolution`] and is proved to compute what that pass means.
use vstd::prelude::*;
use crate::ast::{expression_models, lemma_ast_models, names_of, node_models, statement_models,
    AstNode, Expression, ExpressionModel, Statement, StatementModel};
use crate::resolution::{apply, apply_defines, bind, bind_body, bind_statement, code_count,
    collect, collect_before, define_before, define_names, emit_before, evaluate, expand,
    expand_before, label_names, labels_before, lemma_collect_fails, lemma_define_fails,
    lemma_emit_fails, lemma_expand_fails, lemma_labels_fail, lemma_rewrite_fails, macro_names,
    position, resolve_model, rewrite, rewrite_before, Declarations, DefineModel, LabelModel,
    LineModel, MacroModel, ResolveFailure, ResolvedModel, MAX_EXPANSION_DEPTH};
use crate::token::Operator;

verus! {

/// Why a program could not be resolved.
#[derive(Debug, PartialEq, Eq)]
pub enum ResolveError {
    /// Two labels have this name.
    DuplicateLabel(String),
    /// Two macros have this name.
    DuplicateMacro(String),
    /// Two defines have this name.
    DuplicateDefine(String),
    /// An operand refers to this name, which nothing declares; or a call
    /// names this macro, which nothing declares.
    UnresolvedSymbol(String),
    /// Macro calls nest too deep.
    ExpansionDepthExceeded,
    /// The value of this define refers to itself, directly or through other
    /// defines.
    CyclicDefine(String),
    /// The file of this path has not been spliced in.
    UnresolvedInclude(String),
    /// The tree is no program, or an item of it is none.
    MalformedProgram,
    /// A number does not fit in 64 bits.
    ArithmeticOverflow,
    /// An operand divides by zero.
    DivisionByZero,
}

impl View for ResolveError {
    type V = ResolveFailure;

    open spec fn view(&self) -> ResolveFailure {
        match *self {
            ResolveError::DuplicateLabel(name) => ResolveFailure::DuplicateLabel(name@),
            ResolveError::DuplicateMacro(name) => ResolveFailure::DuplicateMacro(name@),
            ResolveError::DuplicateDefine(name) => ResolveFailure::DuplicateDefine(name@),
            ResolveError::UnresolvedSymbol(name) => ResolveFailure::UnresolvedSymbol(name@),
            ResolveError::ExpansionDepthExceeded => ResolveFailure::ExpansionDepthExceeded,
            ResolveError::CyclicDefine(name) => ResolveFailure::CyclicDefine(name@),
            ResolveError::UnresolvedInclude(path) => ResolveFailure::UnresolvedInclude(path@),
            ResolveError::MalformedProgram => ResolveFailure::MalformedProgram,
            ResolveError::ArithmeticOverflow => ResolveFailure::ArithmeticOverflow,
            ResolveError::DivisionByZero => ResolveFailure::DivisionByZero,
        }
    }
}

/// A resolved program: the instructions, each an opcode and an operand, in
/// order, and the labels with their addresses, in the order of their
/// declaration.
#[derive(Debug, PartialEq, Eq)]
pub struct ResolvedProgram {
    pub instructions: Vec<(u64, i64)>,
    pub symbols: Vec<(String, u64)>,
}

/// The models of a sequence of labels.
pub open spec fn label_models(labels: Seq<(String, u64)>) -> Seq<LabelModel> {
    labels.map_values(|label: (String, u64)| (label.0@, label.1 as nat))
}

impl View for ResolvedProgram {
    type V = ResolvedModel;

    open spec fn view(&self) -> ResolvedModel {
        ResolvedModel { instructions: self.instructions@, symbols: label_models(self.symbols@) }
    }
}

/// Model of what `resolve` returns.
pub open spec fn resolution_view(result: Result<ResolvedProgram, ResolveError>) -> Result<
    ResolvedModel,
    ResolveFailure,
> {
    match result {
        Ok(resolved) => Ok(resolved@),
        Err(error) => Err(error@),
    }
}

/// Something that is found by its name.
pub trait Named: Sized {
    /// The name.
    spec fn name_model(&self) -> Seq<char>;

    /// The name.
    fn name(&self) -> (name: &String)
        ensures
            name@ == self.name_model(),
    ;
}

/// The names of a sequence of named things.
pub open spec fn names_in<T: Named>(items: Seq<T>) -> Seq<Seq<char>> {
    items.map_values(|item: T| item.name_model())
}

/// The index of the first of `items` that has the name `name`.
pub fn find<T: Named>(items: &Vec<T>, name: &String) -> (found: Option<usize>)
    ensures
        match found {
            Some(index) => index < items@.len() && position(names_in(items@), name@, 0) == Some(
                index as int,
            ),
            None => position(names_in(items@), name@, 0) is None,
        },
{
    let mut i: usize = 0;
    while i < items.len()
        invariant
            i <= items@.len(),
            position(names_in(items@), name@, i as int) == position(names_in(items@), name@, 0),
        decreases items@.len() - i,
    {
        assert(names_in(items@)[i as int] == items@[i as int].name_model());
        if *items[i].name() == *name {
            return Some(i);
        }
        i = i + 1;
    }
    None
}

impl Named for String {
    open spec fn name_model(&self) -> Seq<char> {
        self@
    }

    fn name(&self) -> (name: &String) {
        self
    }
}

impl Named for (String, u64) {
    open spec fn name_model(&self) -> Seq<char> {
        self.0@
    }

    fn name(&self) -> (name: &String) {
        &self.0
    }
}

/// A declared macro.
pub struct MacroDefinition {
    pub name: String,
    pub parameters: Vec<String>,
    pub body: Vec<Statement>,
}

impl View for MacroDefinition {
    type V = MacroModel;

    open spec fn view(&self) -> MacroModel {
        MacroModel {
            name: self.name@,
            parameters: names_of(self.parameters@),
            body: statement_models(self.body@),
        }
    }
}

impl Named for MacroDefinition {
    open spec fn name_model(&self) -> Seq<char> {
        self.name@
    }

    fn name(&self) -> (name: &String) {
        &self.name
    }
}

/// A declared define.
pub struct Define {
    pub name: String,
    pub value: Expression,
}

impl View for Define {
    type V = DefineModel;

    open spec fn view(&self) -> DefineModel {
        (self.name@, self.value@)
    }
}

impl Named for Define {
    open spec fn name_model(&self) -> Seq<char> {
        self.name@
    }

    fn name(&self) -> (name: &String) {
        &self.name
    }
}

/// A statement after macro expansion.
pub enum Line {
    Label(String),
    Code(u64, Expression),
}

impl View for Line {
    type V = LineModel;

    open spec fn view(&self) -> LineModel {
        match *self {
            Line::Label(name) => LineModel::Label(name@),
            Line::Code(opcode, operand) => LineModel::Code(opcode, operand@),
        }
    }
}

/// The models of a sequence of macros.
pub open spec fn macro_models(macros: Seq<MacroDefinition>) -> Seq<MacroModel> {
    macros.map_values(|declared: MacroDefinition| declared@)
}

/// The models of a sequence of defines.
pub open spec fn define_models(defines: Seq<Define>) -> Seq<DefineModel> {
    defines.map_values(|declared: Define| declared@)
}

/// The models of a sequence of lines.
pub open spec fn line_models(lines: Seq<Line>) -> Seq<LineModel> {
    lines.map_values(|line: Line| line@)
}

/// The operator and the operands of an expression that applies one.
fn parts(expression: &Expression) -> (found: Option<(Operator, &Expression, &Expression)>)
    ensures
        match found {
            Some((operator, left, right)) => expression@ == ExpressionModel::Binary(
                operator,
                Box::new(left@),
                Box::new(right@),
            ),
            None => !(expression@ is Binary),
        },
{
    match expression {
        Expression::Add(left, right) => Some((Operator::Add, &**left, &**right)),
        Expression::Sub(left, right) => Some((Operator::Sub, &**left, &**right)),
        Expression::Mult(left, right) => Some((Operator::Mult, &**left, &**right)),
        Expression::Div(left, right) => Some((Operator::Div, &**left, &**right)),
        _ => None,
    }
}

/// Puts the arguments of a macro call in place of the parameters.
fn bind_expression(expression: &Expression, parameters: &Vec<String>, arguments: &Vec<Expression>) -> (bound:
    Expression)
    ensures
        bound@ == bind(expression@, names_of(parameters@), expression_models(arguments@)),
    decreases expression@,
{
    proof {
        assert(names_in(parameters@) =~= names_of(parameters@));
    }
    match parts(expression) {
        Some((operator, left, right)) => Expression::binary(
            operator,
            bind_expression(left, parameters, arguments),
            bind_expression(right, parameters, arguments),
        ),
        None => match expression {
            Expression::SymbolValue(name) => match find(parameters, name) {
                Some(place) => {
                    if place < arguments.len() {
                        arguments[place].clone()
                    } else {
                        expression.clone()
                    }
                },
                None => expression.clone(),
            },
            _ => expression.clone(),
        },
    }
}

fn bind_arguments(inner: &Vec<Expression>, parameters: &Vec<String>, arguments: &Vec<Expression>) -> (bound:
    Vec<Expression>)
    ensures
        expression_models(bound@) == expression_models(inner@).map_values(
            |argument: ExpressionModel|
                bind(argument, names_of(parameters@), expression_models(arguments@)),
        ),
{
    let mut bound: Vec<Expression> = Vec::new();
    let mut i: usize = 0;
    while i < inner.len()
        invariant
            i <= inner@.len(),
            bound@.len() == i,
            forall|k: int|
                0 <= k < i ==> (#[trigger] bound@[k])@ == bind(
                    inner@[k]@,
                    names_of(parameters@),
                    expression_models(arguments@),
                ),
        decreases inner@.len() - i,
    {
        bound.push(bind_expression(&inner[i], parameters, arguments));
        i = i + 1;
    }
    proof {
        assert(expression_models(bound@) =~= expression_models(inner@).map_values(
            |argument: ExpressionModel|
                bind(argument, names_of(parameters@), expression_models(arguments@)),
        ));
    }
    bound
}

fn bind_one(statement: &Statement, parameters: &Vec<String>, arguments: &Vec<Expression>) -> (bound:
    Statement)
    ensures
        bound@ == bind_statement(
            statement@,
            names_of(parameters@),
            expression_models(arguments@),
        ),
{
    match statement {
        Statement::Label(name) => Statement::Label(name.clone()),
        Statement::Instruction(instruction, operand) => Statement::Instruction(
            instruction.clone(),
            bind_expression(operand, parameters, arguments),
        ),
        Statement::MacroCall(name, inner) => Statement::MacroCall(
            name.clone(),
            bind_arguments(inner, parameters, arguments),
        ),
    }
}

/// The body of a macro with the arguments of a call in place of the
/// parameters.
fn bind_macro(called: &MacroDefinition, arguments: &Vec<Expression>) -> (body: Vec<Statement>)
    ensures
        statement_models(body@) == bind_body(called@, expression_models(arguments@)),
{
    let mut body: Vec<Statement> = Vec::new();
    let mut i: usize = 0;
    while i < called.body.len()
        invariant
            i <= called.body@.len(),
            body@.len() == i,
            forall|k: int|
                0 <= k < i ==> (#[trigger] body@[k])@ == bind_statement(
                    called.body@[k]@,
                    names_of(called.parameters@),
                    expression_models(arguments@),
                ),
        decreases called.body@.len() - i,
    {
        body.push(bind_one(&called.body[i], &called.parameters, arguments));
        i = i + 1;
    }
    proof {
        assert(statement_models(body@) =~= bind_body(called@, expression_models(arguments@)));
    }
    body
}

/// Pass 2: puts the lines that `statements` stand for at the end of
/// `lines`.
fn expand_into(
    statements: &Vec<Statement>,
    macros: &Vec<MacroDefinition>,
    depth: usize,
    lines: &mut Vec<Line>,
) -> (result: Result<(), ResolveError>)
    ensures
        match result {
            Ok(_) => expand(
                statement_models(statements@),
                macro_models(macros@),
                depth as nat,
            ) matches Ok(added) && line_models(final(lines)@) == line_models(old(lines)@) + added,
            Err(error) => expand(
                statement_models(statements@),
                macro_models(macros@),
                depth as nat,
            ) == Err::<Seq<LineModel>, ResolveFailure>(error@),
        },
    decreases depth,
{
    let ghost models = statement_models(statements@);
    let ghost declared = macro_models(macros@);
    let ghost start = line_models(lines@);
    let ghost mut added: Seq<LineModel> = Seq::empty();
    let mut i: usize = 0;
    proof {
        assert(macro_names(declared) =~= names_in(macros@));
        assert(line_models(lines@) =~= start + added);
    }
    while i < statements.len()
        invariant
            i <= statements@.len(),
            models == statement_models(statements@),
            declared == macro_models(macros@),
            macro_names(declared) == names_in(macros@),
            expand_before(models, i as int, declared, depth as nat) == Ok::<
                Seq<LineModel>,
                ResolveFailure,
            >(added),
            line_models(lines@) == start + added,
        decreases statements@.len() - i,
    {
        let ghost before = line_models(lines@);
        assert(models[i as int] == statements@[i as int]@);
        match &statements[i] {
            Statement::Label(name) => {
                let line = Line::Label(name.clone());
                lines.push(line);
                proof {
                    assert(line_models(lines@) =~= before.push(line@));
                    added = added.push(line@);
                    assert(line_models(lines@) =~= start + added);
                }
            },
            Statement::Instruction(instruction, operand) => {
                let line = Line::Code(instruction.opcode(), operand.clone());
                lines.push(line);
                proof {
                    assert(line_models(lines@) =~= before.push(line@));
                    added = added.push(line@);
                    assert(line_models(lines@) =~= start + added);
                }
            },
            Statement::MacroCall(name, arguments) => {
                match find(macros, name) {
                    None => {
                        proof {
                            lemma_expand_fails(
                                models,
                                i + 1,
                                models.len() as int,
                                declared,
                                depth as nat,
                            );
                        }
                        return Err(ResolveError::UnresolvedSymbol(name.clone()));
                    },
                    Some(index) => {
                        if depth == 0 {
                            proof {
                                lemma_expand_fails(
                                    models,
                                    i + 1,
                                    models.len() as int,
                                    declared,
                                    depth as nat,
                                );
                            }
                            return Err(ResolveError::ExpansionDepthExceeded);
                        }
                        assert(declared[index as int] == macros@[index as int]@);
                        let body = bind_macro(&macros[index], arguments);
                        match expand_into(&body, macros, depth - 1, lines) {
                            Ok(_) => {
                                proof {
                                    let inner = expand(
                                        statement_models(body@),
                                        declared,
                                        (depth - 1) as nat,
                                    )->Ok_0;
                                    assert(line_models(lines@) =~= start + (added + inner));
                                    added = added + inner;
                                }
                            },
                            Err(error) => {
                                proof {
                                    lemma_expand_fails(
                                        models,
                                        i + 1,
                                        models.len() as int,
                                        declared,
                                        depth as nat,
                                    );
                                }
                                return Err(error);
                            },
                        }
                    },
                }
            },
        }
        i = i + 1;
    }
    Ok(())
}

/// What a program declares, and the statements that are left.
pub struct Declared {
    pub macros: Vec<MacroDefinition>,
    pub defines: Vec<Define>,
    pub statements: Vec<Statement>,
}

impl View for Declared {
    type V = Declarations;

    open spec fn view(&self) -> Declarations {
        Declarations {
            macros: macro_models(self.macros@),
            defines: define_models(self.defines@),
            statements: statement_models(self.statements@),
        }
    }
}

/// Model of a result that may be a failure.
pub open spec fn outcome<T: View>(result: Result<T, ResolveError>) -> Result<T::V, ResolveFailure> {
    match result {
        Ok(value) => Ok(value@),
        Err(error) => Err(error@),
    }
}

/// Pass 1: collects what the items of a program declare.
fn collect_items(items: Vec<AstNode>) -> (result: Result<Declared, ResolveError>)
    ensures
        outcome(result) == collect(node_models(items@)),
{
    let ghost all = items@;
    let ghost models = node_models(all);
    let mut macros: Vec<MacroDefinition> = Vec::new();
    let mut defines: Vec<Define> = Vec::new();
    let mut statements: Vec<Statement> = Vec::new();
    proof {
        lemma_ast_models(all, all.len() as int);
        assert(macro_models(macros@) =~= Seq::<MacroModel>::empty());
        assert(define_models(defines@) =~= Seq::<DefineModel>::empty());
        assert(statement_models(statements@) =~= Seq::<StatementModel>::empty());
    }
    for item in it: items
        invariant
            it.seq() == all,
            models == node_models(all),
            models.len() == all.len(),
            forall|i: int| 0 <= i < all.len() ==> #[trigger] models[i] == all[i]@,
            collect_before(models, it.index() as int) == Ok::<Declarations, ResolveFailure>(
                Declarations {
                    macros: macro_models(macros@),
                    defines: define_models(defines@),
                    statements: statement_models(statements@),
                },
            ),
    {
        let ghost index = it.index() as int;
        assert(models[index] == item@);
        proof {
            assert(macro_names(macro_models(macros@)) =~= names_in(macros@));
            assert(define_names(define_models(defines@)) =~= names_in(defines@));
        }
        match item {
            AstNode::Define(name, value) => {
                if find(&defines, &name).is_some() {
                    proof {
                        lemma_collect_fails(models, index + 1, models.len() as int);
                    }
                    return Err(ResolveError::DuplicateDefine(name));
                }
                let ghost before = define_models(defines@);
                let declared = Define { name, value };
                defines.push(declared);
                proof {
                    assert(define_models(defines@) =~= before.push(declared@));
                }
            },
            AstNode::MacroCreate(name, parameters, body) => {
                if find(&macros, &name).is_some() {
                    proof {
                        lemma_collect_fails(models, index + 1, models.len() as int);
                    }
                    return Err(ResolveError::DuplicateMacro(name));
                }
                let ghost before = macro_models(macros@);
                let declared = MacroDefinition { name, parameters, body };
                macros.push(declared);
                proof {
                    assert(macro_models(macros@) =~= before.push(declared@));
                }
            },
            AstNode::Statement(statement) => {
                let ghost before = statement_models(statements@);
                statements.push(statement);
                proof {
                    assert(statement_models(statements@) =~= before.push(statement@));
                }
            },
            AstNode::Include(path) => {
                proof {
                    lemma_collect_fails(models, index + 1, models.len() as int);
                }
                return Err(ResolveError::UnresolvedInclude(path));
            },
            _ => {
                proof {
                    lemma_collect_fails(models, index + 1, models.len() as int);
                }
                return Err(ResolveError::MalformedProgram);
            },
        }
    }
    Ok(Declared { macros, defines, statements })
}

/// Puts the values of the defines in place of their names.
fn replace_defines(expression: &Expression, defines: &Vec<Define>, fuel: usize) -> (result: Result<
    Expression,
    ResolveError,
>)
    ensures
        outcome(result) == apply_defines(expression@, define_models(defines@), fuel as nat),
    decreases fuel, expression@,
{
    proof {
        assert(define_names(define_models(defines@)) =~= names_in(defines@));
    }
    match parts(expression) {
        Some((operator, left, right)) => {
            let new_left = match replace_defines(left, defines, fuel) {
                Ok(replaced) => replaced,
                Err(error) => {
                    return Err(error);
                },
            };
            let new_right = match replace_defines(right, defines, fuel) {
                Ok(replaced) => replaced,
                Err(error) => {
                    return Err(error);
                },
            };
            Ok(Expression::binary(operator, new_left, new_right))
        },
        None => match expression {
            Expression::SymbolValue(name) => match find(defines, name) {
                Some(index) => {
                    if fuel == 0 {
                        Err(ResolveError::CyclicDefine(name.clone()))
                    } else {
                        assert(define_models(defines@)[index as int] == defines@[index as int]@);
                        replace_defines(&defines[index].value, defines, fuel - 1)
                    }
                },
                None => Ok(expression.clone()),
            },
            _ => Ok(expression.clone()),
        },
    }
}

/// Pass 3: puts the values of the defines in place of their names, in
/// every operand.
fn define_lines(lines: Vec<Line>, defines: &Vec<Define>) -> (result: Result<
    Vec<Line>,
    ResolveError,
>)
    ensures
        match result {
            Ok(plain) => define_before(
                line_models(lines@),
                lines@.len() as int,
                define_models(defines@),
            ) == Ok::<Seq<LineModel>, ResolveFailure>(line_models(plain@)),
            Err(error) => define_before(
                line_models(lines@),
                lines@.len() as int,
                define_models(defines@),
            ) == Err::<Seq<LineModel>, ResolveFailure>(error@),
        },
{
    let ghost all = lines@;
    let ghost models = line_models(all);
    let ghost declared = define_models(defines@);
    let mut plain: Vec<Line> = Vec::new();
    proof {
        assert(line_models(plain@) =~= Seq::<LineModel>::empty());
    }
    for line in it: lines
        invariant
            it.seq() == all,
            models == line_models(all),
            declared == define_models(defines@),
            declared.len() == defines@.len(),
            define_before(models, it.index() as int, declared) == Ok::<
                Seq<LineModel>,
                ResolveFailure,
            >(line_models(plain@)),
    {
        let ghost index = it.index() as int;
        let ghost before = line_models(plain@);
        assert(models[index] == line@);
        match line {
            Line::Label(name) => {
                let kept = Line::Label(name);
                plain.push(kept);
                proof {
                    assert(line_models(plain@) =~= before.push(kept@));
                }
            },
            Line::Code(opcode, operand) => {
                match replace_defines(&operand, defines, defines.len()) {
                    Ok(value) => {
                        let kept = Line::Code(opcode, value);
                        plain.push(kept);
                        proof {
                            assert(line_models(plain@) =~= before.push(kept@));
                        }
                    },
                    Err(error) => {
                        proof {
                            lemma_define_fails(models, index + 1, models.len() as int, declared);
                        }
                        return Err(error);
                    },
                }
            },
        }
    }
    Ok(plain)
}

/// Pass 4: gives each label the number of instructions before it.
fn collect_labels(lines: &Vec<Line>) -> (result: Result<Vec<(String, u64)>, ResolveError>)
    ensures
        match result {
            Ok(labels) => labels_before(line_models(lines@), lines@.len() as int) == Ok::<
                Seq<LabelModel>,
                ResolveFailure,
            >(label_models(labels@)),
            Err(error) => labels_before(line_models(lines@), lines@.len() as int) == Err::<
                Seq<LabelModel>,
                ResolveFailure,
            >(error@),
        },
{
    let ghost models = line_models(lines@);
    let mut labels: Vec<(String, u64)> = Vec::new();
    let mut address: u64 = 0;
    let mut i: usize = 0;
    proof {
        assert(label_models(labels@) =~= Seq::<LabelModel>::empty());
    }
    while i < lines.len()
        invariant
            i <= lines@.len(),
            models == line_models(lines@),
            address == code_count(models, i as int),
            address <= i,
            labels_before(models, i as int) == Ok::<Seq<LabelModel>, ResolveFailure>(
                label_models(labels@),
            ),
        decreases lines@.len() - i,
    {
        let ghost before = label_models(labels@);
        assert(models[i as int] == lines@[i as int]@);
        proof {
            assert(label_names(before) =~= names_in(labels@));
        }
        match &lines[i] {
            Line::Label(name) => {
                if find(&labels, name).is_some() {
                    proof {
                        lemma_labels_fail(models, i + 1, models.len() as int);
                    }
                    return Err(ResolveError::DuplicateLabel(name.clone()));
                }
                let label = (name.clone(), address);
                labels.push(label);
                proof {
                    assert(label_models(labels@) =~= before.push((name@, address as nat)));
                }
            },
            Line::Code(_, _) => {
                address = address + 1;
            },
        }
        i = i + 1;
    }
    Ok(labels)
}

/// Puts the addresses of the labels in place of their names.
fn rewrite_expression(expression: &Expression, labels: &Vec<(String, u64)>) -> (result: Result<
    Expression,
    ResolveError,
>)
    ensures
        outcome(result) == rewrite(expression@, label_models(labels@)),
    decreases expression@,
{
    proof {
        assert(label_names(label_models(labels@)) =~= names_in(labels@));
    }
    match parts(expression) {
        Some((operator, left, right)) => {
            let new_left = match rewrite_expression(left, labels) {
                Ok(replaced) => replaced,
                Err(error) => {
                    return Err(error);
                },
            };
            let new_right = match rewrite_expression(right, labels) {
                Ok(replaced) => replaced,
                Err(error) => {
                    return Err(error);
                },
            };
            Ok(Expression::binary(operator, new_left, new_right))
        },
        None => match expression {
            Expression::SymbolValue(name) => match find(labels, name) {
                Some(index) => {
                    assert(label_models(labels@)[index as int] == (
                        labels@[index as int].0@,
                        labels@[index as int].1 as nat,
                    ));
                    let address = labels[index].1;
                    if address <= 0x7fff_ffff_ffff_ffff {
                        Ok(Expression::Value(address as i64))
                    } else {
                        Err(ResolveError::ArithmeticOverflow)
                    }
                },
                None => Ok(expression.clone()),
            },
            _ => Ok(expression.clone()),
        },
    }
}

/// Pass 5: puts the addresses of the labels in place of their names, in
/// every operand.
fn rewrite_lines(lines: Vec<Line>, labels: &Vec<(String, u64)>) -> (result: Result<
    Vec<Line>,
    ResolveError,
>)
    ensures
        match result {
            Ok(closed) => rewrite_before(
                line_models(lines@),
                lines@.len() as int,
                label_models(labels@),
            ) == Ok::<Seq<LineModel>, ResolveFailure>(line_models(closed@)),
            Err(error) => rewrite_before(
                line_models(lines@),
                lines@.len() as int,
                label_models(labels@),
            ) == Err::<Seq<LineModel>, ResolveFailure>(error@),
        },
{
    let ghost all = lines@;
    let ghost models = line_models(all);
    let ghost table = label_models(labels@);
    let mut closed: Vec<Line> = Vec::new();
    proof {
        assert(line_models(closed@) =~= Seq::<LineModel>::empty());
    }
    for line in it: lines
        invariant
            it.seq() == all,
            models == line_models(all),
            table == label_models(labels@),
            rewrite_before(models, it.index() as int, table) == Ok::<
                Seq<LineModel>,
                ResolveFailure,
            >(line_models(closed@)),
    {
        let ghost index = it.index() as int;
        let ghost before = line_models(closed@);
        assert(models[index] == line@);
        match line {
            Line::Label(name) => {
                let kept = Line::Label(name);
                closed.push(kept);
                proof {
                    assert(line_models(closed@) =~= before.push(kept@));
                }
            },
            Line::Code(opcode, operand) => {
                match rewrite_expression(&operand, labels) {
                    Ok(value) => {
                        let kept = Line::Code(opcode, value);
                        closed.push(kept);
                        proof {
                            assert(line_models(closed@) =~= before.push(kept@));
                        }
                    },
                    Err(error) => {
                        proof {
                            lemma_rewrite_fails(models, index + 1, models.len() as int, table);
                        }
                        return Err(error);
                    },
                }
            },
        }
    }
    Ok(closed)
}

/// Model of a computed number.
pub open spec fn number_view(result: Result<i64, ResolveError>) -> Result<int, ResolveFailure> {
    match result {
        Ok(value) => Ok(value as int),
        Err(error) => Err(error@),
    }
}

fn apply_operator(operator: Operator, left: i64, right: i64) -> (result: Result<i64, ResolveError>)
    ensures
        number_view(result) == apply(operator, left as int, right as int),
{
    let computed = match operator {
        Operator::Add => left.checked_add(right),
        Operator::Sub => left.checked_sub(right),
        Operator::Mult => left.checked_mul(right),
        Operator::Div => {
            if right == 0 {
                return Err(ResolveError::DivisionByZero);
            }
            left.checked_div(right)
        },
    };
    match computed {
        Some(value) => Ok(value),
        None => Err(ResolveError::ArithmeticOverflow),
    }
}

/// Pass 6: the value of an operand.
fn evaluate_expression(expression: &Expression) -> (result: Result<i64, ResolveError>)
    ensures
        number_view(result) == evaluate(expression@),
    decreases expression@,
{
    match parts(expression) {
        Some((operator, left, right)) => {
            let left_value = match evaluate_expression(left) {
                Ok(value) => value,
                Err(error) => {
                    return Err(error);
                },
            };
            let right_value = match evaluate_expression(right) {
                Ok(value) => value,
                Err(error) => {
                    return Err(error);
                },
            };
            apply_operator(operator, left_value, right_value)
        },
        None => match expression {
            Expression::Value(value) => Ok(*value),
            Expression::SymbolValue(name) => Err(ResolveError::UnresolvedSymbol(name.clone())),
            _ => Err(ResolveError::MalformedProgram),
        },
    }
}

/// Passes 6 and 7: lists the instructions, each with its opcode and the
/// value of its operand.
fn emit(lines: &Vec<Line>) -> (result: Result<Vec<(u64, i64)>, ResolveError>)
    ensures
        match result {
            Ok(instructions) => emit_before(line_models(lines@), lines@.len() as int) == Ok::<
                Seq<(u64, i64)>,
                ResolveFailure,
            >(instructions@),
            Err(error) => emit_before(line_models(lines@), lines@.len() as int) == Err::<
                Seq<(u64, i64)>,
                ResolveFailure,
            >(error@),
        },
{
    let ghost models = line_models(lines@);
    let mut instructions: Vec<(u64, i64)> = Vec::new();
    let mut i: usize = 0;
    while i < lines.len()
        invariant
            i <= lines@.len(),
            models == line_models(lines@),
            emit_before(models, i as int) == Ok::<Seq<(u64, i64)>, ResolveFailure>(
                instructions@,
            ),
        decreases lines@.len() - i,
    {
        assert(models[i as int] == lines@[i as int]@);
        match &lines[i] {
            Line::Label(_) => {},
            Line::Code(opcode, operand) => {
                match evaluate_expression(operand) {
                    Ok(value) => {
                        instructions.push((*opcode, value));
                    },
                    Err(error) => {
                        proof {
                            lemma_emit_fails(models, i + 1, models.len() as int);
                        }
                        return Err(error);
                    },
                }
            },
        }
        i = i + 1;
    }
    Ok(instructions)
}

/// Resolves a program: expands its macros, replaces its defines, gives its
/// labels their addresses, evaluates its operands, and lists its
/// instructions.  The first pass that fails gives the failure.
pub fn resolve(program: AstNode) -> (result: Result<ResolvedProgram, ResolveError>)
    ensures
        resolution_view(result) == resolve_model(program@),
{
    let items = match program {
        AstNode::Program(items) => items,
        _ => {
            return Err(ResolveError::MalformedProgram);
        },
    };
    let declared = match collect_items(items) {
        Ok(declared) => declared,
        Err(error) => {
            return Err(error);
        },
    };
    let mut lines: Vec<Line> = Vec::new();
    proof {
        assert(line_models(lines@) =~= Seq::<LineModel>::empty());
    }
    match expand_into(&declared.statements, &declared.macros, MAX_EXPANSION_DEPTH, &mut lines) {
        Ok(_) => {},
        Err(error) => {
            return Err(error);
        },
    }
    proof {
        let added = expand(
            statement_models(declared.statements@),
            macro_models(declared.macros@),
            MAX_EXPANSION_DEPTH as nat,
        )->Ok_0;
        assert(line_models(lines@) =~= added);
    }
    let plain = match define_lines(lines, &declared.defines) {
        Ok(plain) => plain,
        Err(error) => {
            return Err(error);
        },
    };
    let labels = match collect_labels(&plain) {
        Ok(labels) => labels,
        Err(error) => {
            return Err(error);
        },
    };
    let closed = match rewrite_lines(plain, &labels) {
        Ok(closed) => closed,
        Err(error) => {
            return Err(error);
        },
    };
    let instructions = match emit(&closed) {
        Ok(instructions) => instructions,
        Err(error) => {
            return Err(error);
        },
    };
    Ok(ResolvedProgram { instructions, symbols: labels })
}

} // verus!
