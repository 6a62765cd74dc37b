use ayysee::ast::{BinaryOpcode, Block, Expr, Identifier, IfStatement, Statement, UnaryOpcode, Value};
use ayysee::error::Error;
use ayysee::generate_program;
use ayysee::ir::builder::generate_ir;
use ayysee::ir::optimize::optimize;
use ayysee::ir::types::{Instruction as Ir, VarId, VarOrConst, VarValue};
use ayysee::mips::instructions::{FlowControl, Instruction, Misc, Program};
use ayysee::mips::types::{Device, DeviceVariable, JumpDest, Register, RegisterOrNumber};
use ayysee::number::Number;
use ayysee::simulator::{Operation, Operator, Progress, Simulator, TickResult};

fn ident(name: &str) -> Identifier {
    Identifier::from_str(name)
}

fn var(name: &str) -> Box<Expr> {
    Box::new(Expr::Identifier(ident(name)))
}

fn lit(x: i64) -> Box<Expr> {
    Box::new(Expr::Constant(Value::Integer(x)))
}

fn bin(lhs: Box<Expr>, op: BinaryOpcode, rhs: Box<Expr>) -> Box<Expr> {
    Box::new(Expr::BinaryOp(lhs, op, rhs))
}

fn call(name: &str, args: Vec<Box<Expr>>) -> Box<Expr> {
    Box::new(Expr::FunctionCall(ident(name), args))
}

fn field(device: &str, attribute: &str) -> Box<Expr> {
    Box::new(Expr::FieldExpr(ident(device), ident(attribute)))
}

fn load(device: &str, attribute: &str) -> Box<Expr> {
    call("load", vec![var(device), var(attribute)])
}

fn store(device: &str, attribute: &str, value: Box<Expr>) -> Statement {
    Statement::new_function_call(ident("store"), vec![var(device), var(attribute), value])
}

fn define(name: &str, value: Box<Expr>) -> Statement {
    Statement::new_definition(ident(name), value)
}

fn assign(lhs: Box<Expr>, rhs: Box<Expr>) -> Statement {
    Statement::new_assignment(lhs, rhs)
}

fn block(statements: Vec<Statement>) -> Block {
    Block::new_statements(Some(statements))
}

fn compile(statements: Vec<Statement>) -> Program {
    generate_program(ayysee::ast::Program::new(statements)).unwrap()
}

fn compute(operation: Operation) -> Number {
    let a = f64::from_bits(operation.a.to_bits());
    let b = f64::from_bits(operation.b.to_bits());
    let r = match operation.operator {
        Operator::Add => a + b,
        Operator::Subtract => a - b,
        Operator::Multiply => a * b,
        Operator::Divide => a / b,
    };
    Number::from_bits(r.to_bits())
}

fn tick(simulator: &mut Simulator) -> TickResult {
    let mut progress = simulator.tick().unwrap();
    loop {
        match progress {
            Progress::Done(result) => return result,
            Progress::Compute(operation) => {
                assert!(simulator.is_waiting());
                progress = simulator.resume(compute(operation)).unwrap();
            }
        }
    }
}

fn read(simulator: &Simulator, device: Device, variable: DeviceVariable) -> f64 {
    f64::from_bits(simulator.read(device, variable).to_bits())
}

fn write(simulator: &mut Simulator, device: Device, variable: DeviceVariable, value: f64) {
    simulator.write(device, variable, Number::from_bits(value.to_bits()));
}

#[test]
fn test_empty_program() {
    let mips = compile(vec![]);
    let mut simulator = Simulator::new(mips);
    assert_eq!(tick(&mut simulator), TickResult::End);
}

#[test]
fn ir_test_simple_store() {
    let mips = compile(vec![store("d0", "Setting", lit(1))]);
    let mut simulator = Simulator::new(mips);
    assert_eq!(tick(&mut simulator), TickResult::End);
    assert_eq!(read(&simulator, Device::D0, DeviceVariable::Setting), 1.0);
}

#[test]
fn mod_test_simple_store() {
    let mips = compile(vec![store("d0", "Setting", lit(1))]);
    let mut simulator = Simulator::new(mips);
    assert_eq!(tick(&mut simulator), TickResult::End);
    assert_eq!(read(&simulator, Device::D0, DeviceVariable::Setting), 1.0);
}

#[test]
fn test_new_store_syntax() {
    let mips = compile(vec![assign(field("d0", "Setting"), lit(1))]);
    let mut simulator = Simulator::new(mips);
    assert_eq!(tick(&mut simulator), TickResult::End);
    assert_eq!(read(&simulator, Device::D0, DeviceVariable::Setting), 1.0);
}

#[test]
fn mod_test_simple_variable() {
    let mips = compile(vec![
        define("x", lit(1)),
        define("y", bin(var("x"), BinaryOpcode::Add, lit(2))),
        store("d0", "Setting", var("y")),
    ]);
    let mut simulator = Simulator::new(mips);
    assert_eq!(tick(&mut simulator), TickResult::End);
    assert_eq!(read(&simulator, Device::D0, DeviceVariable::Setting), 3.0);
}

#[test]
fn test_simple_load() {
    let mips = compile(vec![
        define("x", load("d0", "Setting")),
        define("y", bin(var("x"), BinaryOpcode::Add, lit(2))),
        store("d0", "Setting", var("y")),
    ]);
    let mut simulator = Simulator::new(mips);
    write(&mut simulator, Device::D0, DeviceVariable::Setting, 2.0);
    assert_eq!(tick(&mut simulator), TickResult::End);
    assert_eq!(read(&simulator, Device::D0, DeviceVariable::Setting), 4.0);
}

#[test]
fn test_new_load() {
    let mips = compile(vec![store("d0", "Setting", bin(field("d0", "Setting"), BinaryOpcode::Add, lit(2)))]);
    let mut simulator = Simulator::new(mips);
    write(&mut simulator, Device::D0, DeviceVariable::Setting, 2.0);
    assert_eq!(tick(&mut simulator), TickResult::End);
    assert_eq!(read(&simulator, Device::D0, DeviceVariable::Setting), 4.0);
}

fn simple_conditional() -> Vec<Statement> {
    vec![Statement::new_if(IfStatement::new_if_else(
        bin(load("d0", "Setting"), BinaryOpcode::Greater, lit(5)),
        block(vec![store("d0", "Setting", lit(1))]),
        block(vec![store("d0", "Setting", lit(2))]),
    ))]
}

#[test]
fn test_simple_conditional() {
    {
        let mut simulator = Simulator::new(compile(simple_conditional()));
        write(&mut simulator, Device::D0, DeviceVariable::Setting, 2.0);
        assert_eq!(tick(&mut simulator), TickResult::End);
        assert_eq!(read(&simulator, Device::D0, DeviceVariable::Setting), 2.0);
    }
    {
        let mut simulator = Simulator::new(compile(simple_conditional()));
        write(&mut simulator, Device::D0, DeviceVariable::Setting, 8.0);
        assert_eq!(tick(&mut simulator), TickResult::End);
        assert_eq!(read(&simulator, Device::D0, DeviceVariable::Setting), 1.0);
    }
}

fn conditional_without_else() -> Vec<Statement> {
    vec![
        define("x", lit(1)),
        Statement::new_if(IfStatement::new_if(
            bin(field("d0", "Setting"), BinaryOpcode::Greater, lit(5)),
            block(vec![define("x", lit(2))]),
        )),
        assign(field("d1", "Setting"), var("x")),
    ]
}

#[test]
fn test_conditional_without_else() {
    {
        let mut simulator = Simulator::new(compile(conditional_without_else()));
        write(&mut simulator, Device::D0, DeviceVariable::Setting, 3.0);
        assert_eq!(tick(&mut simulator), TickResult::End);
        assert_eq!(read(&simulator, Device::D1, DeviceVariable::Setting), 1.0);
    }
    {
        let mut simulator = Simulator::new(compile(conditional_without_else()));
        write(&mut simulator, Device::D0, DeviceVariable::Setting, 8.0);
        assert_eq!(tick(&mut simulator), TickResult::End);
        assert_eq!(read(&simulator, Device::D1, DeviceVariable::Setting), 2.0);
    }
}

fn assignment_in_conditional() -> Vec<Statement> {
    vec![
        define("x", lit(0)),
        Statement::new_if(IfStatement::new_if_else(
            bin(load("d0", "Setting"), BinaryOpcode::Greater, lit(5)),
            block(vec![assign(var("x"), lit(1))]),
            block(vec![assign(var("x"), lit(2))]),
        )),
        store("d0", "Setting", var("x")),
    ]
}

#[test]
fn test_assignment_in_conditional() {
    {
        let mut simulator = Simulator::new(compile(assignment_in_conditional()));
        write(&mut simulator, Device::D0, DeviceVariable::Setting, 2.0);
        assert_eq!(tick(&mut simulator), TickResult::End);
        assert_eq!(read(&simulator, Device::D0, DeviceVariable::Setting), 2.0);
    }
    {
        let mut simulator = Simulator::new(compile(assignment_in_conditional()));
        write(&mut simulator, Device::D0, DeviceVariable::Setting, 8.0);
        assert_eq!(tick(&mut simulator), TickResult::End);
        assert_eq!(read(&simulator, Device::D0, DeviceVariable::Setting), 1.0);
    }
}

fn counting_loop() -> Vec<Statement> {
    vec![
        define("x", lit(0)),
        Statement::new_loop(block(vec![
            assign(var("x"), bin(var("x"), BinaryOpcode::Add, lit(1))),
            store("d0", "Setting", var("x")),
            Statement::new_yield(),
        ])),
    ]
}

#[test]
fn test_loop() {
    let mut simulator = Simulator::new(compile(counting_loop()));
    assert_eq!(tick(&mut simulator), TickResult::Yield);
    assert_eq!(read(&simulator, Device::D0, DeviceVariable::Setting), 1.0);
    assert_eq!(tick(&mut simulator), TickResult::Yield);
    assert_eq!(read(&simulator, Device::D0, DeviceVariable::Setting), 2.0);
}

#[test]
fn test_web_example() {
    let mips = compile(vec![
        Statement::new_constant(ident("base"), var("db")),
        Statement::new_constant(ident("gas_sensor"), var("d1")),
        Statement::new_loop(block(vec![
            define("temp", field("gas_sensor", "Temperature")),
            Statement::new_if(IfStatement::new_if_else(
                bin(var("temp"), BinaryOpcode::Greater, lit(200)),
                block(vec![assign(field("base", "Setting"), lit(0))]),
                block(vec![assign(field("base", "Setting"), lit(1))]),
            )),
            Statement::new_yield(),
        ])),
    ]);
    let mut simulator = Simulator::new(mips);
    assert_eq!(tick(&mut simulator), TickResult::Yield);
}

#[test]
fn test_supports_comparators() {
    let x = bin(
        bin(field("d0", "Temperature"), BinaryOpcode::Mul, field("d0", "Pressure")),
        BinaryOpcode::Add,
        bin(field("d0", "Setting"), BinaryOpcode::Div, field("d0", "On")),
    );
    let condition = bin(
        bin(
            bin(
                bin(
                    bin(var("x"), BinaryOpcode::Greater, lit(0)),
                    BinaryOpcode::Disj,
                    bin(
                        bin(field("d0", "Temperature"), BinaryOpcode::GreaterEquals, lit(0)),
                        BinaryOpcode::Conj,
                        bin(field("d0", "Power"), BinaryOpcode::Lower, lit(0)),
                    ),
                ),
                BinaryOpcode::Disj,
                bin(field("d0", "Output"), BinaryOpcode::LowerEquals, lit(0)),
            ),
            BinaryOpcode::Disj,
            bin(field("d0", "Lock"), BinaryOpcode::Equals, lit(0)),
        ),
        BinaryOpcode::Disj,
        bin(field("d0", "Mode"), BinaryOpcode::NotEquals, lit(1)),
    );
    let mips = compile(vec![
        define("x", x),
        Statement::new_if(IfStatement::new_if(condition, block(vec![define("x", lit(2))]))),
        assign(field("d1", "Setting"), var("x")),
    ]);
    let mut simulator = Simulator::new(mips);
    assert_eq!(tick(&mut simulator), TickResult::End);
    // every attribute is zero, so the condition holds and x becomes 2
    assert_eq!(read(&simulator, Device::D1, DeviceVariable::Setting), 2.0);
}

#[test]
fn test_inlines_variables() {
    let parsed = ayysee::ast::Program::new(vec![
        define("x", lit(1)),
        define("y", var("x")),
        define("z", var("y")),
        store("d0", "Setting", var("z")),
    ]);
    let mut program = generate_ir(parsed).unwrap();
    optimize(&mut program);
    assert_eq!(program.blocks[0].instructions.len(), 1, "instructions: {:?}", program);
}

#[test]
fn simple_store_is_two_lines() {
    let mips = compile(vec![store("d0", "Setting", lit(1))]);
    assert_eq!(
        mips.instructions,
        vec![
            Instruction::DeviceIo(ayysee::mips::instructions::DeviceIo::StoreDeviceVariable {
                device: Device::D0,
                variable: DeviceVariable::Setting,
                register: RegisterOrNumber::Number(Number::from_bits(1.0f64.to_bits())),
            }),
            Instruction::FlowControl(FlowControl::Jump {
                a: JumpDest::Number(Number::from_bits(2.0f64.to_bits())),
            }),
        ]
    );
}

#[test]
fn loop_jumps_back_to_its_start() {
    let mips = compile(counting_loop());
    let r0 = Register::R0;
    assert_eq!(
        mips.instructions,
        vec![
            Instruction::Misc(Misc::Move { register: r0, a: RegisterOrNumber::Number(Number::from_i64(0)) }),
            Instruction::Arithmetic(ayysee::mips::instructions::Arithmetic::Add {
                register: r0,
                a: RegisterOrNumber::Register(r0),
                b: RegisterOrNumber::Number(Number::from_i64(1)),
            }),
            Instruction::DeviceIo(ayysee::mips::instructions::DeviceIo::StoreDeviceVariable {
                device: Device::D0,
                variable: DeviceVariable::Setting,
                register: RegisterOrNumber::Register(r0),
            }),
            Instruction::Misc(Misc::Yield),
            Instruction::FlowControl(FlowControl::Jump { a: JumpDest::Number(Number::from_i64(1)) }),
        ]
    );
}

#[test]
fn conditional_branches_to_the_block_for_false() {
    let mips = compile(simple_conditional());
    assert_eq!(mips.instructions.len(), 7);
    match &mips.instructions[2] {
        Instruction::FlowControl(FlowControl::BranchEqualZero { a: _, b }) => {
            assert_eq!(*b, RegisterOrNumber::Number(Number::from_i64(5)));
        }
        other => panic!("{:?}", other),
    }
    // the block for true ends in a jump to the end of the program
    assert_eq!(
        mips.instructions[4],
        Instruction::FlowControl(FlowControl::Jump { a: JumpDest::Number(Number::from_i64(7)) })
    );
    // the block where the two meet was emitted after the block for true
    assert_eq!(
        mips.instructions[6],
        Instruction::FlowControl(FlowControl::Jump { a: JumpDest::Number(Number::from_i64(4)) })
    );
}

#[test]
fn unknown_identifier_is_an_undefined_name() {
    let r = generate_program(ayysee::ast::Program::new(vec![store("d0", "Setting", var("nothing"))]));
    assert_eq!(r, Err(Error::UndefinedName));
}

#[test]
fn unary_operator_is_unsupported_syntax() {
    let not = Box::new(Expr::UnaryOp(UnaryOpcode::Not, lit(1)));
    let r = generate_program(ayysee::ast::Program::new(vec![define("x", not)]));
    assert_eq!(r, Err(Error::UnsupportedSyntax));
}

#[test]
fn unsupported_statements_are_refused() {
    let statements = vec![
        Statement::new_alias(ident("a"), ident("b")),
        Statement::new_function(ident("f"), vec![], block(vec![])),
        Statement::new_block(block(vec![])),
        Statement::new_device(ayysee::ast::DeviceStatement::new_read(ident("d0"), ident("Setting"), ident("x"))),
        Statement::new_device(ayysee::ast::DeviceStatement::new_write(lit(1), ident("d0"), ident("Setting"))),
        assign(lit(1), lit(2)),
    ];
    for statement in statements {
        let r = generate_program(ayysee::ast::Program::new(vec![statement]));
        assert_eq!(r, Err(Error::UnsupportedSyntax));
    }
}

#[test]
fn more_than_sixteen_live_values_is_register_pressure() {
    let mut statements = vec![];
    for i in 0..17 {
        statements.push(define(&format!("v{}", i), load("d0", "Setting")));
    }
    let mut sum = var("v0");
    for i in 1..17 {
        sum = bin(sum, BinaryOpcode::Add, var(&format!("v{}", i)));
    }
    statements.push(store("d0", "Setting", sum));
    let r = generate_program(ayysee::ast::Program::new(statements));
    assert_eq!(r, Err(Error::RegisterPressure));
}

#[test]
fn sixteen_live_values_fit() {
    let mut statements = vec![];
    for i in 0..16 {
        statements.push(define(&format!("v{}", i), load("d0", "Setting")));
    }
    let mut sum = var("v0");
    for i in 1..16 {
        sum = bin(sum, BinaryOpcode::Add, var(&format!("v{}", i)));
    }
    statements.push(store("d1", "Setting", sum));
    let mut simulator = Simulator::new(compile(statements));
    write(&mut simulator, Device::D0, DeviceVariable::Setting, 1.5);
    assert_eq!(tick(&mut simulator), TickResult::End);
    assert_eq!(read(&simulator, Device::D1, DeviceVariable::Setting), 24.0);
}

#[test]
fn unknown_function_is_an_unknown_call() {
    let r = generate_program(ayysee::ast::Program::new(vec![store("d0", "Setting", call("f", vec![lit(1)]))]));
    assert_eq!(r, Err(Error::UnknownCall));
}

#[test]
fn store_to_what_is_no_device_is_unsupported() {
    let r = generate_program(ayysee::ast::Program::new(vec![
        define("x", lit(1)),
        store("x", "Setting", lit(1)),
    ]));
    assert_eq!(r, Err(Error::UnsupportedSyntax));
    let r = generate_program(ayysee::ast::Program::new(vec![store("d0", "d1", lit(1))]));
    assert_eq!(r, Err(Error::UnsupportedSyntax));
}

#[test]
fn return_becomes_a_jump_to_the_return_address() {
    let mips = compile(vec![Statement::new_return(lit(1))]);
    assert_eq!(
        mips.instructions[0],
        Instruction::FlowControl(FlowControl::Jump { a: JumpDest::Register(Register::Ra) })
    );
}

#[test]
fn constants_stand_for_their_values() {
    let mips = compile(vec![
        Statement::new_constant(ident("limit"), lit(7)),
        store("d0", "Setting", var("limit")),
    ]);
    let mut simulator = Simulator::new(mips);
    assert_eq!(tick(&mut simulator), TickResult::End);
    assert_eq!(read(&simulator, Device::D0, DeviceVariable::Setting), 7.0);
}

#[test]
fn literals_keep_their_values() {
    let mips = compile(vec![
        store("d0", "Setting", Box::new(Expr::Constant(Value::Float(Number::from_bits(2.5f64.to_bits()))))),
        store("d1", "Setting", Box::new(Expr::Constant(Value::Boolean(true)))),
        store("d2", "Setting", Box::new(Expr::Constant(Value::Integer(-3)))),
    ]);
    let mut simulator = Simulator::new(mips);
    assert_eq!(tick(&mut simulator), TickResult::End);
    assert_eq!(read(&simulator, Device::D0, DeviceVariable::Setting), 2.5);
    assert_eq!(read(&simulator, Device::D1, DeviceVariable::Setting), 1.0);
    assert_eq!(read(&simulator, Device::D2, DeviceVariable::Setting), -3.0);
}

#[test]
fn ir_of_a_loop_has_a_phi_for_the_counter() {
    let program = generate_ir(ayysee::ast::Program::new(counting_loop())).unwrap();
    // the entry, the block after the loop and the body of the loop
    assert_eq!(program.blocks.len(), 3);
    assert_eq!(program.blocks[0].next.len(), 1);
    assert_eq!(program.blocks[2].prev.len(), 2);
    match &program.blocks[2].instructions[0] {
        Ir::Assignment { id, value: VarValue::Phi(operands) } => {
            assert_eq!(*id, VarId(2));
            assert_eq!(*operands, vec![VarId(1), VarId(3)]);
        }
        other => panic!("{:?}", other),
    }
}

#[test]
fn a_phi_that_would_read_itself_leaves_itself_out() {
    // x is read in the loop and never assigned there: the way back gives the phi itself
    let program = generate_ir(ayysee::ast::Program::new(vec![
        define("x", lit(0)),
        Statement::new_loop(block(vec![store("d0", "Setting", var("x")), Statement::new_yield()])),
    ]))
    .unwrap();
    assert_eq!(program.blocks[2].prev.len(), 2);
    match &program.blocks[2].instructions[0] {
        Ir::Assignment { id: _, value: VarValue::Phi(operands) } => {
            assert_eq!(*operands, vec![VarId(1)]);
        }
        other => panic!("{:?}", other),
    }
}

fn defined_and_used(program: &ayysee::ir::types::Program) -> (Vec<usize>, Vec<usize>) {
    let mut defined = vec![];
    let mut used = vec![];
    for b in &program.blocks {
        for ins in &b.instructions {
            match ins {
                Ir::Assignment { id, value } => {
                    defined.push(id.0);
                    for v in value.used_vars() {
                        used.push(v.0);
                    }
                }
                Ir::Branch { cond, .. } => {
                    for v in cond.used_vars() {
                        used.push(v.0);
                    }
                }
                Ir::Return(VarOrConst::Var(v)) => used.push(v.0),
                _ => {}
            }
        }
    }
    (defined, used)
}

#[test]
fn every_value_is_assigned_once_and_every_use_is_assigned() {
    for statements in [counting_loop(), simple_conditional(), conditional_without_else(), assignment_in_conditional()]
    {
        let program = generate_ir(ayysee::ast::Program::new(statements)).unwrap();
        let (defined, used) = defined_and_used(&program);
        let mut sorted = defined.clone();
        sorted.sort();
        sorted.dedup();
        assert_eq!(sorted.len(), defined.len());
        for v in used {
            assert!(defined.contains(&v), "{}", v);
        }
        for b in &program.blocks {
            for ins in &b.instructions {
                if let ayysee::ir::types::Instruction::Assignment {
                    value: ayysee::ir::types::VarValue::Phi(operands),
                    ..
                } = ins
                {
                    assert!(operands.len() <= b.prev.len());
                }
            }
        }
    }
}

#[test]
fn after_the_passes_every_value_is_used_or_stored() {
    for statements in [counting_loop(), simple_conditional(), conditional_without_else(), assignment_in_conditional()]
    {
        let mut program = generate_ir(ayysee::ast::Program::new(statements)).unwrap();
        optimize(&mut program);
        let (defined, used) = defined_and_used(&program);
        for b in &program.blocks {
            for ins in &b.instructions {
                if let Ir::Assignment { id, value } = ins {
                    let stores = matches!(value, VarValue::Call { name, .. } if name == "store");
                    assert!(stores || used.contains(&id.0), "{:?}", ins);
                }
            }
        }
        assert!(!defined.is_empty());
    }
}

#[test]
fn the_lines_of_a_compiled_program_are_read_back_as_the_program() {
    for statements in [counting_loop(), simple_conditional(), conditional_without_else(), assignment_in_conditional()]
    {
        let program = compile(statements);
        let lines = program.lines().unwrap();
        assert_eq!(lines.len(), program.instructions.len());
        assert_eq!(Program::from_lines(&lines), Ok(program));
    }
}

#[test]
fn reading_is_before_writing_in_a_store_of_a_load() {
    // the value of d0.Setting is read into a register before it is written
    let mips = compile(vec![store("d0", "Setting", bin(field("d0", "Setting"), BinaryOpcode::Mul, lit(3)))]);
    let mut simulator = Simulator::new(mips);
    write(&mut simulator, Device::D0, DeviceVariable::Setting, 1.5);
    assert_eq!(tick(&mut simulator), TickResult::End);
    assert_eq!(read(&simulator, Device::D0, DeviceVariable::Setting), 4.5);
}

#[test]
fn a_loop_in_a_conditional() {
    let mips = compile(vec![
        define("x", lit(10)),
        Statement::new_if(IfStatement::new_if_else(
            bin(field("d0", "On"), BinaryOpcode::Equals, lit(1)),
            block(vec![Statement::new_loop(block(vec![
                assign(var("x"), bin(var("x"), BinaryOpcode::Sub, lit(1))),
                store("d1", "Setting", var("x")),
                Statement::new_yield(),
            ]))]),
            block(vec![store("d1", "Setting", lit(-1))]),
        )),
    ]);
    {
        let mut simulator = Simulator::new(mips.clone());
        write(&mut simulator, Device::D0, DeviceVariable::On, 1.0);
        assert_eq!(tick(&mut simulator), TickResult::Yield);
        assert_eq!(read(&simulator, Device::D1, DeviceVariable::Setting), 9.0);
        assert_eq!(tick(&mut simulator), TickResult::Yield);
        assert_eq!(read(&simulator, Device::D1, DeviceVariable::Setting), 8.0);
    }
    {
        let mut simulator = Simulator::new(mips);
        assert_eq!(tick(&mut simulator), TickResult::End);
        assert_eq!(read(&simulator, Device::D1, DeviceVariable::Setting), -1.0);
    }
}

#[test]
fn every_edge_is_noted_at_both_ends() {
    for statements in [counting_loop(), simple_conditional(), conditional_without_else(), assignment_in_conditional()]
    {
        let program = generate_ir(ayysee::ast::Program::new(statements)).unwrap();
        for (a, block) in program.blocks.iter().enumerate() {
            assert!(block.next.len() <= 2);
            let branches = block.instructions.iter().filter(|i| matches!(i, Ir::Branch { .. })).count();
            assert_eq!(branches, if block.next.len() == 2 { 1 } else { 0 });
            for b in &block.next {
                assert!(program.blocks[b.0].prev.iter().any(|p| p.0 == a));
            }
            for b in &block.prev {
                assert!(program.blocks[b.0].next.iter().any(|n| n.0 == a));
            }
        }
    }
}

#[test]
fn every_jump_goes_to_a_line_or_to_the_end() {
    for statements in [counting_loop(), simple_conditional(), conditional_without_else(), assignment_in_conditional()]
    {
        let program = compile(statements);
        let length = program.instructions.len();
        for instruction in &program.instructions {
            let target = match instruction {
                Instruction::FlowControl(FlowControl::Jump { a: JumpDest::Number(n) }) => Some(*n),
                Instruction::FlowControl(FlowControl::BranchEqualZero { a: _, b: RegisterOrNumber::Number(n) }) => {
                    Some(*n)
                }
                _ => None,
            };
            if let Some(n) = target {
                let line = f64::from_bits(n.to_bits());
                assert!(line >= 0.0 && line <= length as f64 && line.fract() == 0.0, "{:?}", instruction);
            }
        }
    }
}
