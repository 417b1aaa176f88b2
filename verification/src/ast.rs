//! The syntax tree that the parsers build and the resolver consumes.
//!
//! A parent owns its children; nothing is shared.  Each executable type has
//! a model in which text is a `Seq<char>` and a list is a `Seq`.
use vstd::prelude::*;
use crate::token::Operator;

verus! {

/// An expression over integers and symbols.
#[derive(Debug, PartialEq, Eq)]
pub enum Expression {
    Add(Box<Expression>, Box<Expression>),
    Sub(Box<Expression>, Box<Expression>),
    Mult(Box<Expression>, Box<Expression>),
    Div(Box<Expression>, Box<Expression>),
    Value(i64),
    /// A reference to a define, a label or, where the name begins with `$`,
    /// a macro parameter.
    SymbolValue(String),
}

/// Model of an [`Expression`].
pub enum ExpressionModel {
    Binary(Operator, Box<ExpressionModel>, Box<ExpressionModel>),
    Literal(i64),
    SymbolRef(Seq<char>),
}

/// The model of an expression.
pub open spec fn expression_model(expression: Expression) -> ExpressionModel
    decreases expression,
{
    match expression {
        Expression::Add(left, right) => ExpressionModel::Binary(
            Operator::Add,
            Box::new(expression_model(*left)),
            Box::new(expression_model(*right)),
        ),
        Expression::Sub(left, right) => ExpressionModel::Binary(
            Operator::Sub,
            Box::new(expression_model(*left)),
            Box::new(expression_model(*right)),
        ),
        Expression::Mult(left, right) => ExpressionModel::Binary(
            Operator::Mult,
            Box::new(expression_model(*left)),
            Box::new(expression_model(*right)),
        ),
        Expression::Div(left, right) => ExpressionModel::Binary(
            Operator::Div,
            Box::new(expression_model(*left)),
            Box::new(expression_model(*right)),
        ),
        Expression::Value(value) => ExpressionModel::Literal(value),
        Expression::SymbolValue(name) => ExpressionModel::SymbolRef(name@),
    }
}

impl View for Expression {
    type V = ExpressionModel;

    open spec fn view(&self) -> ExpressionModel {
        expression_model(*self)
    }
}

impl Clone for Expression {
    fn clone(&self) -> (copy: Self)
        ensures
            copy@ == self@,
        decreases self,
    {
        match self {
            Expression::Add(left, right) => Expression::Add(
                Box::new((**left).clone()),
                Box::new((**right).clone()),
            ),
            Expression::Sub(left, right) => Expression::Sub(
                Box::new((**left).clone()),
                Box::new((**right).clone()),
            ),
            Expression::Mult(left, right) => Expression::Mult(
                Box::new((**left).clone()),
                Box::new((**right).clone()),
            ),
            Expression::Div(left, right) => Expression::Div(
                Box::new((**left).clone()),
                Box::new((**right).clone()),
            ),
            Expression::Value(value) => Expression::Value(*value),
            Expression::SymbolValue(name) => Expression::SymbolValue(name.clone()),
        }
    }
}

impl Expression {
    /// The application of `operator` to two expressions.
    pub fn binary(operator: Operator, left: Expression, right: Expression) -> (made: Expression)
        ensures
            made@ == ExpressionModel::Binary(operator, Box::new(left@), Box::new(right@)),
    {
        match operator {
            Operator::Add => Expression::Add(Box::new(left), Box::new(right)),
            Operator::Sub => Expression::Sub(Box::new(left), Box::new(right)),
            Operator::Mult => Expression::Mult(Box::new(left), Box::new(right)),
            Operator::Div => Expression::Div(Box::new(left), Box::new(right)),
        }
    }
}

/// What an instruction statement names: an instruction keyword, with its
/// opcode and mnemonic, or a bare opcode.
#[derive(Debug, PartialEq, Eq)]
pub enum Instruction {
    Named(u64, String),
    Number(u64),
}

/// Model of an [`Instruction`].
pub enum InstructionModel {
    Named(u64, Seq<char>),
    Number(u64),
}

impl InstructionModel {
    /// The opcode that is emitted for the instruction.
    pub open spec fn opcode(self) -> u64 {
        match self {
            InstructionModel::Named(opcode, _) => opcode,
            InstructionModel::Number(opcode) => opcode,
        }
    }
}

impl View for Instruction {
    type V = InstructionModel;

    open spec fn view(&self) -> InstructionModel {
        match *self {
            Instruction::Named(opcode, mnemonic) => InstructionModel::Named(opcode, mnemonic@),
            Instruction::Number(opcode) => InstructionModel::Number(opcode),
        }
    }
}

impl Clone for Instruction {
    fn clone(&self) -> (copy: Self)
        ensures
            copy == *self,
    {
        match self {
            Instruction::Named(opcode, mnemonic) => Instruction::Named(*opcode, mnemonic.clone()),
            Instruction::Number(opcode) => Instruction::Number(*opcode),
        }
    }
}

impl Instruction {
    /// The opcode that is emitted for the instruction.
    pub fn opcode(&self) -> (opcode: u64)
        ensures
            opcode == self@.opcode(),
    {
        match self {
            Instruction::Named(opcode, _) => *opcode,
            Instruction::Number(opcode) => *opcode,
        }
    }
}

/// A statement of a program or of a macro body.
#[derive(Debug, PartialEq, Eq)]
pub enum Statement {
    /// The declaration of a label, by name.
    Label(String),
    /// An instruction and its operand.
    Instruction(Instruction, Expression),
    /// The call of a macro, by name, with its arguments.
    MacroCall(String, Vec<Expression>),
}

/// Model of a [`Statement`].
pub enum StatementModel {
    Label(Seq<char>),
    Instruction(InstructionModel, ExpressionModel),
    MacroCall(Seq<char>, Seq<ExpressionModel>),
}

/// The models of a sequence of expressions.
pub open spec fn expression_models(expressions: Seq<Expression>) -> Seq<ExpressionModel> {
    expressions.map_values(|expression: Expression| expression@)
}

impl View for Statement {
    type V = StatementModel;

    open spec fn view(&self) -> StatementModel {
        match *self {
            Statement::Label(name) => StatementModel::Label(name@),
            Statement::Instruction(instruction, operand) => StatementModel::Instruction(
                instruction@,
                operand@,
            ),
            Statement::MacroCall(name, arguments) => StatementModel::MacroCall(
                name@,
                expression_models(arguments@),
            ),
        }
    }
}

/// The models of a sequence of statements.
pub open spec fn statement_models(statements: Seq<Statement>) -> Seq<StatementModel> {
    statements.map_values(|statement: Statement| statement@)
}

/// The texts of a sequence of strings.
pub open spec fn names_of(names: Seq<String>) -> Seq<Seq<char>> {
    names.map_values(|name: String| name@)
}

/// A node of the syntax tree.
#[derive(Debug, PartialEq, Eq)]
pub enum AstNode {
    /// A program: its items, in order.
    Program(Vec<AstNode>),
    /// The request to splice in another file, by path.
    Include(String),
    /// The declaration of a named constant expression.
    Define(String, Expression),
    /// The declaration of a macro: its name, its parameters, its body.
    MacroCreate(String, Vec<String>, Vec<Statement>),
    Statement(Statement),
    Expression(Expression),
    /// The nodes that a combinator gathered.
    UntilCollection(Vec<AstNode>),
}

/// Model of an [`AstNode`].
pub enum AstModel {
    Program(Seq<AstModel>),
    Include(Seq<char>),
    Define(Seq<char>, ExpressionModel),
    MacroCreate(Seq<char>, Seq<Seq<char>>, Seq<StatementModel>),
    Statement(StatementModel),
    Expression(ExpressionModel),
    Collection(Seq<AstModel>),
}

/// The model of a node.
pub open spec fn ast_model(node: AstNode) -> AstModel
    decreases node,
{
    match node {
        AstNode::Program(items) => AstModel::Program(ast_models(items@, items@.len() as int)),
        AstNode::Include(path) => AstModel::Include(path@),
        AstNode::Define(name, value) => AstModel::Define(name@, value@),
        AstNode::MacroCreate(name, parameters, body) => AstModel::MacroCreate(
            name@,
            names_of(parameters@),
            statement_models(body@),
        ),
        AstNode::Statement(statement) => AstModel::Statement(statement@),
        AstNode::Expression(expression) => AstModel::Expression(expression@),
        AstNode::UntilCollection(nodes) => AstModel::Collection(
            ast_models(nodes@, nodes@.len() as int),
        ),
    }
}

/// The models of the first `count` of `nodes`.
pub open spec fn ast_models(nodes: Seq<AstNode>, count: int) -> Seq<AstModel>
    decreases nodes, count,
{
    if count <= 0 || count > nodes.len() {
        Seq::empty()
    } else {
        ast_models(nodes, count - 1).push(ast_model(nodes[count - 1]))
    }
}

/// The models of a sequence of nodes.
pub open spec fn node_models(nodes: Seq<AstNode>) -> Seq<AstModel> {
    ast_models(nodes, nodes.len() as int)
}

impl View for AstNode {
    type V = AstModel;

    open spec fn view(&self) -> AstModel {
        ast_model(*self)
    }
}

/// The models of a sequence of nodes are the models of its members, in
/// order.
pub proof fn lemma_ast_models(nodes: Seq<AstNode>, count: int)
    requires
        0 <= count <= nodes.len(),
    ensures
        ast_models(nodes, count).len() == count,
        forall|i: int| 0 <= i < count ==> #[trigger] ast_models(nodes, count)[i] == nodes[i]@,
    decreases count,
{
    if count > 0 {
        lemma_ast_models(nodes, count - 1);
    }
}

/// Putting one more node at the end puts its model at the end.
pub proof fn lemma_ast_models_push(nodes: Seq<AstNode>, node: AstNode)
    ensures
        node_models(nodes.push(node)) == node_models(nodes).push(node@),
        node_models(Seq::<AstNode>::empty()) == Seq::<AstModel>::empty(),
{
    let longer = nodes.push(node);
    lemma_ast_models(nodes, nodes.len() as int);
    lemma_ast_models(longer, longer.len() as int);
    assert(node_models(longer) =~= node_models(nodes).push(node@));
}

} // verus!
