use asm_frontend::parser::{AstNode, Expression, Instruction, Statement};
use asm_frontend::resolution::MAX_EXPANSION_DEPTH;
use asm_frontend::resolver::{find, resolve, ResolveError, ResolvedProgram};

fn value(number: i64) -> Expression {
    Expression::Value(number)
}

fn name(symbol: &str) -> Expression {
    Expression::SymbolValue(symbol.to_string())
}

fn plus(left: Expression, right: Expression) -> Expression {
    Expression::Add(Box::new(left), Box::new(right))
}

fn minus(left: Expression, right: Expression) -> Expression {
    Expression::Sub(Box::new(left), Box::new(right))
}

fn times(left: Expression, right: Expression) -> Expression {
    Expression::Mult(Box::new(left), Box::new(right))
}

fn over(left: Expression, right: Expression) -> Expression {
    Expression::Div(Box::new(left), Box::new(right))
}

fn code(opcode: u64, operand: Expression) -> AstNode {
    AstNode::Statement(instruction(opcode, operand))
}

fn instruction(opcode: u64, operand: Expression) -> Statement {
    Statement::Instruction(Instruction::Number(opcode), operand)
}

fn label(symbol: &str) -> AstNode {
    AstNode::Statement(Statement::Label(symbol.to_string()))
}

fn call(symbol: &str, arguments: Vec<Expression>) -> AstNode {
    AstNode::Statement(Statement::MacroCall(symbol.to_string(), arguments))
}

fn define(symbol: &str, value: Expression) -> AstNode {
    AstNode::Define(symbol.to_string(), value)
}

fn declare(symbol: &str, parameters: &[&str], body: Vec<Statement>) -> AstNode {
    AstNode::MacroCreate(
        symbol.to_string(),
        parameters.iter().map(|parameter| parameter.to_string()).collect(),
        body,
    )
}

fn run(items: Vec<AstNode>) -> Result<ResolvedProgram, ResolveError> {
    resolve(AstNode::Program(items))
}

fn instructions(items: Vec<AstNode>) -> Vec<(u64, i64)> {
    run(items).unwrap().instructions
}

fn operand(expression: Expression) -> Result<i64, ResolveError> {
    run(vec![code(1, expression)]).map(|resolved| resolved.instructions[0].1)
}

#[test]
fn empty_program_resolves_to_nothing() {
    assert_eq!(run(vec![]), Ok(ResolvedProgram { instructions: vec![], symbols: vec![] }));
}

#[test]
fn instructions_keep_their_order() {
    assert_eq!(
        instructions(vec![code(30, value(1)), code(10, value(-2)), code(30, value(3))]),
        vec![(30, 1), (10, -2), (30, 3)]
    );
}

#[test]
fn named_instruction_gives_its_opcode() {
    let program = vec![AstNode::Statement(Statement::Instruction(
        Instruction::Named(40, "jmp".to_string()),
        value(7),
    ))];
    assert_eq!(instructions(program), vec![(40, 7)]);
}

#[test]
fn plain_program_has_one_instruction_per_statement() {
    for count in [0usize, 1, 2, 17] {
        let items: Vec<AstNode> =
            (0..count).map(|index| code(index as u64, value(index as i64))).collect();
        assert_eq!(instructions(items).len(), count);
    }
}

#[test]
fn label_address_is_the_number_of_instructions_before_it() {
    let resolved = run(vec![
        label("first"),
        code(1, value(0)),
        code(1, value(0)),
        label("second"),
        label("third"),
        code(2, name("first")),
        code(2, name("second")),
        code(2, name("third")),
        code(2, name("last")),
        label("last"),
    ])
    .unwrap();
    assert_eq!(
        resolved.symbols,
        vec![
            ("first".to_string(), 0),
            ("second".to_string(), 2),
            ("third".to_string(), 2),
            ("last".to_string(), 6),
        ]
    );
    assert_eq!(resolved.instructions, vec![(1, 0), (1, 0), (2, 0), (2, 2), (2, 2), (2, 6)]);
}

#[test]
fn label_takes_part_in_arithmetic() {
    assert_eq!(
        instructions(vec![
            code(1, value(0)),
            label("here"),
            code(2, plus(times(name("here"), value(4)), value(2))),
        ]),
        vec![(1, 0), (2, 6)]
    );
}

#[test]
fn label_declared_twice_is_a_duplicate() {
    assert_eq!(
        run(vec![label("a"), code(1, value(0)), label("b"), label("a")]),
        Err(ResolveError::DuplicateLabel("a".to_string()))
    );
    assert_eq!(
        run(vec![label("a"), label("a")]),
        Err(ResolveError::DuplicateLabel("a".to_string()))
    );
}

#[test]
fn label_referenced_but_not_declared_is_unresolved() {
    assert_eq!(
        run(vec![label("a"), code(1, name("b"))]),
        Err(ResolveError::UnresolvedSymbol("b".to_string()))
    );
    assert_eq!(
        run(vec![code(1, plus(value(1), name("nowhere")))]),
        Err(ResolveError::UnresolvedSymbol("nowhere".to_string()))
    );
}

#[test]
fn duplicate_label_is_found_before_an_unresolved_symbol() {
    assert_eq!(
        run(vec![code(1, name("b")), label("a"), label("a")]),
        Err(ResolveError::DuplicateLabel("a".to_string()))
    );
}

#[test]
fn first_unresolved_symbol_is_reported() {
    assert_eq!(
        run(vec![code(1, plus(name("x"), name("y"))), code(1, name("z"))]),
        Err(ResolveError::UnresolvedSymbol("x".to_string()))
    );
}

#[test]
fn define_stands_for_its_value() {
    assert_eq!(
        instructions(vec![
            define("size", plus(value(2), value(3))),
            code(1, times(name("size"), name("size"))),
        ]),
        vec![(1, 25)]
    );
}

#[test]
fn define_may_follow_its_use() {
    assert_eq!(
        instructions(vec![code(1, name("late")), define("late", value(9))]),
        vec![(1, 9)]
    );
}

#[test]
fn define_may_refer_to_other_defines() {
    assert_eq!(
        instructions(vec![
            define("a", plus(name("b"), value(1))),
            define("b", times(name("c"), value(2))),
            define("c", value(5)),
            code(1, name("a")),
        ]),
        vec![(1, 11)]
    );
}

#[test]
fn define_may_refer_to_a_label() {
    assert_eq!(
        instructions(vec![
            define("target", plus(name("here"), value(1))),
            code(1, value(0)),
            label("here"),
            code(2, name("target")),
        ]),
        vec![(1, 0), (2, 2)]
    );
}

#[test]
fn define_comes_before_a_label_of_the_same_name() {
    assert_eq!(
        instructions(vec![
            define("x", value(50)),
            code(1, value(0)),
            label("x"),
            code(2, name("x")),
        ]),
        vec![(1, 0), (2, 50)]
    );
}

#[test]
fn define_declared_twice_is_a_duplicate() {
    assert_eq!(
        run(vec![define("a", value(1)), define("b", value(2)), define("a", value(1))]),
        Err(ResolveError::DuplicateDefine("a".to_string()))
    );
}

#[test]
fn define_that_refers_to_itself_is_cyclic() {
    assert_eq!(
        run(vec![define("a", plus(name("a"), value(1))), code(1, name("a"))]),
        Err(ResolveError::CyclicDefine("a".to_string()))
    );
    assert_eq!(
        run(vec![define("a", name("b")), define("b", name("a")), code(1, name("b"))]),
        Err(ResolveError::CyclicDefine("b".to_string()))
    );
    assert_eq!(
        run(vec![
            define("a", name("b")),
            define("b", name("c")),
            define("c", name("b")),
            code(1, name("a")),
        ]),
        Err(ResolveError::CyclicDefine("b".to_string()))
    );
}

#[test]
fn cyclic_define_that_is_not_used_does_no_harm() {
    assert_eq!(
        instructions(vec![define("a", name("a")), code(1, value(1))]),
        vec![(1, 1)]
    );
}

#[test]
fn longest_chain_of_defines_is_followed() {
    assert_eq!(
        instructions(vec![
            define("a", name("b")),
            define("b", name("c")),
            define("c", name("d")),
            define("d", value(4)),
            code(1, name("a")),
        ]),
        vec![(1, 4)]
    );
}

#[test]
fn macro_call_stands_for_the_body() {
    assert_eq!(
        instructions(vec![
            declare("two", &[], vec![instruction(5, value(1)), instruction(6, value(2))]),
            code(1, value(0)),
            call("two", vec![]),
            code(9, value(9)),
            call("two", vec![]),
        ]),
        vec![(1, 0), (5, 1), (6, 2), (9, 9), (5, 1), (6, 2)]
    );
}

#[test]
fn arguments_stand_for_the_parameters_by_place() {
    assert_eq!(
        instructions(vec![
            declare(
                "pair",
                &["$a", "$b"],
                vec![
                    instruction(1, name("$a")),
                    instruction(2, name("$b")),
                    instruction(3, minus(name("$a"), name("$b"))),
                ]
            ),
            call("pair", vec![value(10), plus(value(1), value(2))]),
        ]),
        vec![(1, 10), (2, 3), (3, 7)]
    );
}

#[test]
fn macro_call_equals_the_body_written_in_its_place() {
    let called = run(vec![
        declare(
            "step",
            &["$n"],
            vec![instruction(1, name("$n")), instruction(2, plus(name("$n"), name("end")))],
        ),
        code(7, value(0)),
        call("step", vec![value(4)]),
        label("end"),
        code(8, name("end")),
    ]);
    let inline = run(vec![
        code(7, value(0)),
        code(1, value(4)),
        code(2, plus(value(4), name("end"))),
        label("end"),
        code(8, name("end")),
    ]);
    assert_eq!(called, inline);
    assert_eq!(
        called,
        Ok(ResolvedProgram {
            instructions: vec![(7, 0), (1, 4), (2, 7), (8, 3)],
            symbols: vec![("end".to_string(), 3)],
        })
    );
}

#[test]
fn macro_may_be_declared_after_its_call() {
    assert_eq!(
        instructions(vec![
            call("one", vec![]),
            declare("one", &[], vec![instruction(5, value(1))]),
        ]),
        vec![(5, 1)]
    );
}

#[test]
fn macro_may_call_macros() {
    assert_eq!(
        instructions(vec![
            declare(
                "outer",
                &["$x"],
                vec![
                    Statement::MacroCall("inner".to_string(), vec![plus(name("$x"), value(1))]),
                    instruction(2, name("$x")),
                ]
            ),
            declare("inner", &["$x"], vec![instruction(1, times(name("$x"), value(2)))]),
            call("outer", vec![value(5)]),
        ]),
        vec![(1, 12), (2, 5)]
    );
}

#[test]
fn argument_may_use_defines_and_labels() {
    assert_eq!(
        instructions(vec![
            define("base", value(100)),
            declare("put", &["$v"], vec![instruction(1, name("$v"))]),
            label("top"),
            code(0, value(0)),
            call("put", vec![plus(name("base"), name("bottom"))]),
            label("bottom"),
        ]),
        vec![(0, 0), (1, 102)]
    );
}

#[test]
fn label_in_a_macro_called_twice_is_a_duplicate() {
    let declaration = || {
        declare(
            "spin",
            &[],
            vec![Statement::Label("again".to_string()), instruction(1, name("again"))],
        )
    };
    assert_eq!(
        run(vec![declaration(), code(0, value(0)), call("spin", vec![])]),
        Ok(ResolvedProgram {
            instructions: vec![(0, 0), (1, 1)],
            symbols: vec![("again".to_string(), 1)],
        })
    );
    assert_eq!(
        run(vec![declaration(), call("spin", vec![]), call("spin", vec![])]),
        Err(ResolveError::DuplicateLabel("again".to_string()))
    );
}

#[test]
fn missing_argument_leaves_the_parameter_unresolved() {
    assert_eq!(
        run(vec![
            declare("pair", &["$a", "$b"], vec![instruction(1, plus(name("$a"), name("$b")))]),
            call("pair", vec![value(1)]),
        ]),
        Err(ResolveError::UnresolvedSymbol("$b".to_string()))
    );
}

#[test]
fn surplus_argument_is_ignored() {
    assert_eq!(
        instructions(vec![
            declare("one", &["$a"], vec![instruction(1, name("$a"))]),
            call("one", vec![value(1), value(2)]),
        ]),
        vec![(1, 1)]
    );
}

#[test]
fn parameter_outside_a_macro_is_unresolved() {
    assert_eq!(
        run(vec![code(1, name("$a"))]),
        Err(ResolveError::UnresolvedSymbol("$a".to_string()))
    );
}

#[test]
fn call_of_an_unknown_macro_is_unresolved() {
    assert_eq!(
        run(vec![call("nothing", vec![])]),
        Err(ResolveError::UnresolvedSymbol("nothing".to_string()))
    );
}

#[test]
fn macro_declared_twice_is_a_duplicate() {
    assert_eq!(
        run(vec![declare("m", &[], vec![]), declare("m", &["$a"], vec![])]),
        Err(ResolveError::DuplicateMacro("m".to_string()))
    );
}

#[test]
fn macro_that_calls_itself_exceeds_the_depth() {
    assert_eq!(
        run(vec![
            declare(
                "forever",
                &[],
                vec![
                    instruction(1, value(1)),
                    Statement::MacroCall("forever".to_string(), vec![]),
                ]
            ),
            call("forever", vec![]),
        ]),
        Err(ResolveError::ExpansionDepthExceeded)
    );
}

fn chain(length: usize) -> Vec<AstNode> {
    let mut items = vec![declare("m0", &[], vec![instruction(1, value(1))])];
    for index in 1..length {
        items.push(declare(
            &format!("m{}", index),
            &[],
            vec![Statement::MacroCall(format!("m{}", index - 1), vec![])],
        ));
    }
    items.push(call(&format!("m{}", length - 1), vec![]));
    items
}

#[test]
fn calls_may_nest_as_deep_as_the_limit() {
    assert_eq!(MAX_EXPANSION_DEPTH, 64);
    assert_eq!(instructions(chain(MAX_EXPANSION_DEPTH)), vec![(1, 1)]);
    assert_eq!(run(chain(MAX_EXPANSION_DEPTH + 1)), Err(ResolveError::ExpansionDepthExceeded));
}

#[test]
fn inclusion_is_not_resolved_here() {
    assert_eq!(
        run(vec![code(1, value(1)), AstNode::Include("lib.asm".to_string())]),
        Err(ResolveError::UnresolvedInclude("lib.asm".to_string()))
    );
}

#[test]
fn tree_that_is_no_program_is_malformed() {
    assert_eq!(resolve(code(1, value(1))), Err(ResolveError::MalformedProgram));
    assert_eq!(resolve(AstNode::Include("a".to_string())), Err(ResolveError::MalformedProgram));
    assert_eq!(
        run(vec![AstNode::Expression(value(1))]),
        Err(ResolveError::MalformedProgram)
    );
    assert_eq!(run(vec![AstNode::Program(vec![])]), Err(ResolveError::MalformedProgram));
    assert_eq!(
        run(vec![AstNode::UntilCollection(vec![])]),
        Err(ResolveError::MalformedProgram)
    );
}

#[test]
fn first_failing_pass_gives_the_failure() {
    assert_eq!(
        run(vec![
            call("nothing", vec![]),
            label("a"),
            label("a"),
            define("d", value(1)),
            define("d", value(1)),
        ]),
        Err(ResolveError::DuplicateDefine("d".to_string()))
    );
    assert_eq!(
        run(vec![
            define("c", name("c")),
            code(1, name("c")),
            label("a"),
            label("a"),
            call("nothing", vec![]),
        ]),
        Err(ResolveError::UnresolvedSymbol("nothing".to_string()))
    );
    assert_eq!(
        run(vec![label("a"), label("a"), define("c", name("c")), code(1, name("c"))]),
        Err(ResolveError::CyclicDefine("c".to_string()))
    );
}

#[test]
fn arithmetic_on_operands() {
    assert_eq!(operand(plus(value(2), value(3))), Ok(5));
    assert_eq!(operand(minus(value(2), value(3))), Ok(-1));
    assert_eq!(operand(times(value(-4), value(3))), Ok(-12));
    assert_eq!(operand(over(value(12), value(4))), Ok(3));
    assert_eq!(
        operand(minus(times(value(2), plus(value(3), value(4))), over(value(9), value(3)))),
        Ok(11)
    );
}

#[test]
fn division_rounds_toward_zero() {
    assert_eq!(operand(over(value(7), value(2))), Ok(3));
    assert_eq!(operand(over(value(-7), value(2))), Ok(-3));
    assert_eq!(operand(over(value(7), value(-2))), Ok(-3));
    assert_eq!(operand(over(value(-7), value(-2))), Ok(3));
    assert_eq!(operand(over(value(0), value(-5))), Ok(0));
    assert_eq!(operand(over(value(1), value(i64::MIN))), Ok(0));
    assert_eq!(operand(over(value(i64::MIN), value(1))), Ok(i64::MIN));
}

#[test]
fn division_by_zero_fails() {
    assert_eq!(operand(over(value(1), value(0))), Err(ResolveError::DivisionByZero));
    assert_eq!(operand(over(value(0), value(0))), Err(ResolveError::DivisionByZero));
    assert_eq!(
        operand(over(value(1), minus(value(2), value(2)))),
        Err(ResolveError::DivisionByZero)
    );
}

#[test]
fn overflow_fails() {
    assert_eq!(operand(plus(value(i64::MAX), value(1))), Err(ResolveError::ArithmeticOverflow));
    assert_eq!(operand(minus(value(i64::MIN), value(1))), Err(ResolveError::ArithmeticOverflow));
    assert_eq!(operand(times(value(i64::MAX), value(2))), Err(ResolveError::ArithmeticOverflow));
    assert_eq!(operand(over(value(i64::MIN), value(-1))), Err(ResolveError::ArithmeticOverflow));
    assert_eq!(operand(plus(value(i64::MAX), value(0))), Ok(i64::MAX));
    assert_eq!(operand(minus(value(i64::MIN), value(0))), Ok(i64::MIN));
    assert_eq!(operand(times(value(i64::MIN), value(1))), Ok(i64::MIN));
}

#[test]
fn left_operand_fails_first() {
    assert_eq!(
        operand(plus(over(value(1), value(0)), name("x"))),
        Err(ResolveError::DivisionByZero)
    );
    assert_eq!(
        operand(plus(name("x"), over(value(1), value(0)))),
        Err(ResolveError::UnresolvedSymbol("x".to_string()))
    );
}

#[test]
fn find_gives_the_first_of_that_name() {
    let names = vec!["a".to_string(), "b".to_string(), "a".to_string()];
    assert_eq!(find(&names, &"a".to_string()), Some(0));
    assert_eq!(find(&names, &"b".to_string()), Some(1));
    assert_eq!(find(&names, &"c".to_string()), None);
    let labels = vec![("x".to_string(), 4u64), ("y".to_string(), 5u64)];
    assert_eq!(find(&labels, &"y".to_string()), Some(1));
    assert_eq!(find(&Vec::<String>::new(), &"a".to_string()), None);
}
