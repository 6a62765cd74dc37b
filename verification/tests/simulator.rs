use ayysee::error::Error;
use ayysee::mips::instructions::{
    Arithmetic, DeviceIo, FlowControl, Instruction, Logic, Misc, Program, Stack, VariableSelection,
};
use ayysee::mips::text::Word;
use ayysee::mips::types::{Device, DeviceVariable, JumpDest, Register, RegisterOrNumber};
use ayysee::number::Number;
use ayysee::simulator::{Operation, Operator, Progress, Simulator, TickResult};

fn num(x: f64) -> Number {
    Number::from_bits(x.to_bits())
}

fn n(x: f64) -> RegisterOrNumber {
    RegisterOrNumber::Number(num(x))
}

fn r(register: Register) -> RegisterOrNumber {
    RegisterOrNumber::Register(register)
}

fn compute(operation: Operation) -> Number {
    let a = f64::from_bits(operation.a.to_bits());
    let b = f64::from_bits(operation.b.to_bits());
    num(match operation.operator {
        Operator::Add => a + b,
        Operator::Subtract => a - b,
        Operator::Multiply => a * b,
        Operator::Divide => a / b,
    })
}

fn tick(simulator: &mut Simulator) -> Result<TickResult, Error> {
    let mut progress = simulator.tick()?;
    loop {
        match progress {
            Progress::Done(result) => return Ok(result),
            Progress::Compute(operation) => progress = simulator.resume(compute(operation))?,
        }
    }
}

fn run(instructions: Vec<Instruction>) -> Simulator {
    let mut simulator = Simulator::new(Program { instructions });
    assert_eq!(tick(&mut simulator), Ok(TickResult::End));
    simulator
}

fn value(simulator: &Simulator, register: Register) -> f64 {
    f64::from_bits(simulator.register(register).to_bits())
}

fn mov(register: Register, x: f64) -> Instruction {
    Instruction::Misc(Misc::Move { register, a: n(x) })
}

#[test]
fn a_machine_starts_with_zeros() {
    let simulator = Simulator::new(Program { instructions: vec![] });
    assert_eq!(value(&simulator, Register::R7), 0.0);
    assert_eq!(value(&simulator, Register::Sp), 0.0);
    assert_eq!(simulator.read(Device::D3, DeviceVariable::Pressure), num(0.0));
    assert!(!simulator.is_waiting());
}

#[test]
fn arithmetic_is_asked_of_the_caller() {
    let mut simulator = Simulator::new(Program {
        instructions: vec![
            mov(Register::R1, 6.0),
            Instruction::Arithmetic(Arithmetic::Divide { register: Register::R2, a: r(Register::R1), b: n(4.0) }),
        ],
    });
    let progress = simulator.tick().unwrap();
    assert_eq!(
        progress,
        Progress::Compute(Operation { operator: Operator::Divide, a: num(6.0), b: num(4.0) })
    );
    assert!(simulator.is_waiting());
    assert_eq!(simulator.resume(num(1.5)), Ok(Progress::Done(TickResult::End)));
    assert_eq!(value(&simulator, Register::R2), 1.5);
    assert_eq!(value(&simulator, Register::Sp), 2.0);
}

#[test]
fn the_four_operations() {
    let simulator = run(vec![
        Instruction::Arithmetic(Arithmetic::Add { register: Register::R0, a: n(1.5), b: n(2.0) }),
        Instruction::Arithmetic(Arithmetic::Subtract { register: Register::R1, a: n(1.5), b: n(2.0) }),
        Instruction::Arithmetic(Arithmetic::Multiply { register: Register::R2, a: n(1.5), b: n(2.0) }),
        Instruction::Arithmetic(Arithmetic::Divide { register: Register::R3, a: n(1.0), b: n(0.0) }),
    ]);
    assert_eq!(value(&simulator, Register::R0), 3.5);
    assert_eq!(value(&simulator, Register::R1), -0.5);
    assert_eq!(value(&simulator, Register::R2), 3.0);
    assert_eq!(value(&simulator, Register::R3), f64::INFINITY);
}

#[test]
fn logic_takes_every_number_but_zero_for_true() {
    let simulator = run(vec![
        Instruction::Logic(Logic::And { register: Register::R0, a: n(2.0), b: n(-1.0) }),
        Instruction::Logic(Logic::And { register: Register::R1, a: n(2.0), b: n(0.0) }),
        Instruction::Logic(Logic::Or { register: Register::R2, a: n(0.0), b: n(-0.0) }),
        Instruction::Logic(Logic::Or { register: Register::R3, a: n(0.0), b: n(f64::NAN) }),
    ]);
    assert_eq!(value(&simulator, Register::R0), 1.0);
    assert_eq!(value(&simulator, Register::R1), 0.0);
    assert_eq!(value(&simulator, Register::R2), 0.0);
    assert_eq!(value(&simulator, Register::R3), 1.0);
}

fn select2(make: fn(Register, RegisterOrNumber, RegisterOrNumber) -> VariableSelection, a: f64, b: f64) -> f64 {
    let simulator = run(vec![Instruction::VariableSelection(make(Register::R5, n(a), n(b)))]);
    value(&simulator, Register::R5)
}

fn select1(make: fn(Register, RegisterOrNumber) -> VariableSelection, a: f64) -> f64 {
    let simulator = run(vec![Instruction::VariableSelection(make(Register::R5, n(a)))]);
    value(&simulator, Register::R5)
}

fn truth(x: bool) -> f64 {
    if x {
        1.0
    } else {
        0.0
    }
}

#[test]
fn selections_compare_as_the_machine_does() {
    let samples = [0.0, -0.0, 1.0, -1.0, 2.5, 5.0, f64::INFINITY, f64::NEG_INFINITY, f64::NAN];
    for a in samples {
        for b in samples {
            assert_eq!(
                select2(|register, a, b| VariableSelection::SelectEqual { register, a, b }, a, b),
                truth(a == b)
            );
            assert_eq!(
                select2(|register, a, b| VariableSelection::SelectNotEqual { register, a, b }, a, b),
                truth(a != b)
            );
            assert_eq!(
                select2(|register, a, b| VariableSelection::SelectGreaterThan { register, a, b }, a, b),
                truth(a > b)
            );
            assert_eq!(
                select2(|register, a, b| VariableSelection::SelectGreaterOrEqual { register, a, b }, a, b),
                truth(a >= b)
            );
            assert_eq!(
                select2(|register, a, b| VariableSelection::SelectLessThan { register, a, b }, a, b),
                truth(a < b)
            );
            assert_eq!(
                select2(|register, a, b| VariableSelection::SelectLessOrEqual { register, a, b }, a, b),
                truth(a <= b)
            );
            assert_eq!(
                select2(|register, a, b| VariableSelection::SelectApproximatelyZero { register, a, b }, a, b),
                truth(a.abs() < b)
            );
            assert_eq!(
                select2(|register, a, b| VariableSelection::SelectNotApproximatelyZero { register, a, b }, a, b),
                truth(a.abs() >= b)
            );
        }
        assert_eq!(select1(|register, a| VariableSelection::SelectEqualZero { register, a }, a), truth(a == 0.0));
        assert_eq!(select1(|register, a| VariableSelection::SelectNotEqualZero { register, a }, a), truth(a != 0.0));
        assert_eq!(
            select1(|register, a| VariableSelection::SelectGreaterThanZero { register, a }, a),
            truth(a > 0.0)
        );
        assert_eq!(
            select1(|register, a| VariableSelection::SelectGreaterOrEqualZero { register, a }, a),
            truth(a >= 0.0)
        );
        assert_eq!(select1(|register, a| VariableSelection::SelectLessThanZero { register, a }, a), truth(a < 0.0));
        assert_eq!(
            select1(|register, a| VariableSelection::SelectLessOrEqualZero { register, a }, a),
            truth(a <= 0.0)
        );
    }
}

#[test]
fn select_picks_one_of_two() {
    let simulator = run(vec![
        Instruction::VariableSelection(VariableSelection::Select {
            register: Register::R0,
            a: n(3.0),
            b: n(10.0),
            c: n(20.0),
        }),
        Instruction::VariableSelection(VariableSelection::Select {
            register: Register::R1,
            a: n(0.0),
            b: n(10.0),
            c: n(20.0),
        }),
    ]);
    assert_eq!(value(&simulator, Register::R0), 10.0);
    assert_eq!(value(&simulator, Register::R1), 20.0);
}

#[test]
fn approximate_selections_compare_the_difference_with_the_bound() {
    let simulator = run(vec![
        Instruction::VariableSelection(VariableSelection::SelectApproximatelyEqual {
            register: Register::R0,
            a: n(1.0),
            b: n(1.25),
            c: n(0.5),
        }),
        Instruction::VariableSelection(VariableSelection::SelectApproximatelyEqual {
            register: Register::R1,
            a: n(1.0),
            b: n(1.5),
            c: n(0.5),
        }),
        Instruction::VariableSelection(VariableSelection::SelectNotApproximatelyEqual {
            register: Register::R2,
            a: n(1.0),
            b: n(1.25),
            c: n(0.5),
        }),
        Instruction::VariableSelection(VariableSelection::SelectNotApproximatelyEqual {
            register: Register::R3,
            a: n(1.0),
            b: n(1.5),
            c: n(0.5),
        }),
    ]);
    assert_eq!(value(&simulator, Register::R0), 1.0);
    assert_eq!(value(&simulator, Register::R1), 0.0);
    assert_eq!(value(&simulator, Register::R2), 0.0);
    assert_eq!(value(&simulator, Register::R3), 1.0);
}

#[test]
fn devices_keep_what_is_stored() {
    let mut simulator = Simulator::new(Program {
        instructions: vec![
            Instruction::DeviceIo(DeviceIo::LoadDeviceVariable {
                register: Register::R1,
                device: Device::D1,
                variable: DeviceVariable::Temperature,
            }),
            Instruction::DeviceIo(DeviceIo::StoreDeviceVariable {
                device: Device::Db,
                variable: DeviceVariable::Setting,
                register: r(Register::R1),
            }),
        ],
    });
    simulator.write(Device::D1, DeviceVariable::Temperature, num(21.5));
    assert_eq!(tick(&mut simulator), Ok(TickResult::End));
    assert_eq!(simulator.read(Device::Db, DeviceVariable::Setting), num(21.5));
    // another attribute of the device, and the attribute of another device, are untouched
    assert_eq!(simulator.read(Device::Db, DeviceVariable::Temperature), num(0.0));
    assert_eq!(simulator.read(Device::D0, DeviceVariable::Setting), num(0.0));
    assert_eq!(simulator.read(Device::D5, DeviceVariable::Volume), num(0.0));
}

#[test]
fn move_copies_a_register() {
    let simulator = run(vec![mov(Register::R1, 4.0), Instruction::Misc(Misc::Move { register: Register::R2, a: r(Register::R1) })]);
    assert_eq!(value(&simulator, Register::R2), 4.0);
}

#[test]
fn a_tick_stops_after_127_instructions() {
    let mut simulator = Simulator::new(Program {
        instructions: vec![
            Instruction::Arithmetic(Arithmetic::Add { register: Register::R0, a: r(Register::R0), b: n(1.0) }),
            Instruction::FlowControl(FlowControl::Jump { a: JumpDest::Number(num(0.0)) }),
        ],
    });
    assert_eq!(tick(&mut simulator), Ok(TickResult::LimitHit));
    // 64 additions and 63 jumps
    assert_eq!(value(&simulator, Register::R0), 64.0);
    assert_eq!(tick(&mut simulator), Ok(TickResult::LimitHit));
    assert_eq!(value(&simulator, Register::R0), 127.0);
}

#[test]
fn yield_ends_the_tick_after_the_counter_has_moved() {
    let mut simulator =
        Simulator::new(Program { instructions: vec![Instruction::new_yield(), mov(Register::R0, 1.0)] });
    assert_eq!(tick(&mut simulator), Ok(TickResult::Yield));
    assert_eq!(value(&simulator, Register::Sp), 1.0);
    assert_eq!(value(&simulator, Register::R0), 0.0);
    assert_eq!(tick(&mut simulator), Ok(TickResult::End));
    assert_eq!(value(&simulator, Register::R0), 1.0);
}

#[test]
fn beqz_branches_on_zero_only() {
    let program = |a: f64| {
        vec![
            Instruction::FlowControl(FlowControl::BranchEqualZero { a: n(a), b: n(2.0) }),
            mov(Register::R0, 1.0),
            mov(Register::R1, 1.0),
        ]
    };
    let taken = run(program(0.0));
    assert_eq!(value(&taken, Register::R0), 0.0);
    assert_eq!(value(&taken, Register::R1), 1.0);
    let not_taken = run(program(3.0));
    assert_eq!(value(&not_taken, Register::R0), 1.0);
    assert_eq!(value(&not_taken, Register::R1), 1.0);
}

#[test]
fn a_jump_reads_a_register() {
    let simulator = run(vec![
        mov(Register::Ra, 3.0),
        Instruction::FlowControl(FlowControl::Jump { a: JumpDest::Register(Register::Ra) }),
        mov(Register::R0, 1.0),
        mov(Register::R1, 1.0),
    ]);
    assert_eq!(value(&simulator, Register::R0), 0.0);
    assert_eq!(value(&simulator, Register::R1), 1.0);
}

#[test]
fn a_counter_below_zero_ends_the_program() {
    let mut simulator = Simulator::new(Program { instructions: vec![mov(Register::Sp, -5.0), mov(Register::R0, 1.0)] });
    assert_eq!(tick(&mut simulator), Ok(TickResult::End));
    assert_eq!(value(&simulator, Register::R0), 0.0);
    assert_eq!(value(&simulator, Register::Sp), -4.0);
}

#[test]
fn what_is_not_implemented_is_an_error() {
    let unsupported = vec![
        Instruction::FlowControl(FlowControl::Jump { a: JumpDest::Label("start".to_string()) }),
        Instruction::FlowControl(FlowControl::JumpAndLink { a: JumpDest::Number(num(0.0)) }),
        Instruction::FlowControl(FlowControl::JumpRelative { a: n(1.0) }),
        Instruction::Stack(Stack::Push { a: n(1.0) }),
        Instruction::Stack(Stack::Pop { register: Register::R0 }),
        Instruction::Stack(Stack::Peek { register: Register::R0 }),
        Instruction::Misc(Misc::Halt),
        Instruction::Misc(Misc::Sleep { a: n(1.0) }),
        Instruction::Misc(Misc::Alias { name: "a".to_string(), target: "r0".to_string() }),
        Instruction::Misc(Misc::Define { name: "a".to_string(), value: num(1.0) }),
        Instruction::Misc(Misc::Label { name: "a".to_string() }),
        Instruction::Misc(Misc::Comment { comment: "a".to_string() }),
    ];
    for instruction in unsupported {
        let mut simulator = Simulator::new(Program { instructions: vec![instruction] });
        assert_eq!(tick(&mut simulator), Err(Error::Todo));
    }
}

#[test]
fn a_line_is_read_back_as_the_instruction() {
    let instructions = vec![
        Instruction::DeviceIo(DeviceIo::StoreDeviceVariable {
            device: Device::D0,
            variable: DeviceVariable::Setting,
            register: r(Register::R3),
        }),
        Instruction::DeviceIo(DeviceIo::LoadDeviceVariable {
            register: Register::R15,
            device: Device::Db,
            variable: DeviceVariable::RatioCarbonDioxide,
        }),
        Instruction::Arithmetic(Arithmetic::Subtract { register: Register::R0, a: n(-2.5), b: r(Register::Sp) }),
        Instruction::Logic(Logic::Or { register: Register::R1, a: n(0.0), b: n(1.0) }),
        Instruction::VariableSelection(VariableSelection::SelectLessOrEqualZero { register: Register::R2, a: n(1.0) }),
        Instruction::VariableSelection(VariableSelection::Select {
            register: Register::R2,
            a: n(1.0),
            b: n(2.0),
            c: r(Register::Ra),
        }),
        Instruction::FlowControl(FlowControl::BranchEqualZero { a: r(Register::R1), b: n(7.0) }),
        Instruction::FlowControl(FlowControl::Jump { a: JumpDest::Number(num(12.0)) }),
        Instruction::FlowControl(FlowControl::Jump { a: JumpDest::Register(Register::Ra) }),
        Instruction::Stack(Stack::Push { a: n(1.0) }),
        Instruction::Misc(Misc::Move { register: Register::R9, a: n(1.0) }),
        Instruction::Misc(Misc::Yield),
        Instruction::Misc(Misc::Halt),
    ];
    for instruction in &instructions {
        let words = instruction.words().unwrap();
        assert_eq!(Instruction::from_words(&words), Ok(instruction.clone()));
    }
    let program = Program { instructions };
    let lines = program.lines().unwrap();
    assert_eq!(Program::from_lines(&lines), Ok(program));
}

#[test]
fn the_words_of_a_line() {
    let store = Instruction::DeviceIo(DeviceIo::StoreDeviceVariable {
        device: Device::D0,
        variable: DeviceVariable::Setting,
        register: n(1.0),
    });
    assert_eq!(
        store.words(),
        Some(vec![
            Word::Text("s".to_string()),
            Word::Text("d0".to_string()),
            Word::Text("Setting".to_string()),
            Word::Number(num(1.0)),
        ])
    );
    assert_eq!(Instruction::new_yield().words(), Some(vec![Word::Text("yield".to_string())]));
    assert_eq!(Instruction::Misc(Misc::Label { name: "a".to_string() }).words(), None);
}

#[test]
fn what_is_no_line_is_a_parse_error() {
    let lines: Vec<Vec<Word>> = vec![
        vec![],
        vec![Word::Number(num(1.0))],
        vec![Word::Text("nothing".to_string())],
        vec![Word::Text("yield".to_string()), Word::Number(num(1.0))],
        vec![Word::Text("add".to_string()), Word::Text("r0".to_string()), Word::Number(num(1.0))],
        vec![Word::Text("move".to_string()), Word::Number(num(1.0)), Word::Number(num(1.0))],
        vec![Word::Text("move".to_string()), Word::Text("r16".to_string()), Word::Number(num(1.0))],
        vec![
            Word::Text("s".to_string()),
            Word::Text("d6".to_string()),
            Word::Text("Setting".to_string()),
            Word::Number(num(1.0)),
        ],
        vec![Word::Text("j".to_string()), Word::Text("start".to_string())],
    ];
    for line in lines {
        assert!(matches!(Instruction::from_words(&line), Err(Error::ParseError(_))), "{:?}", line);
    }
}

#[test]
fn names_are_read_back() {
    for i in 0..16u8 {
        let register = Register::from_index(i).unwrap();
        assert_eq!(register.index(), i as usize);
        assert_eq!(register.name(), format!("r{}", i));
        assert_eq!(Register::from_name(&register.name().to_string()), Some(register));
    }
    assert_eq!(Register::from_index(16), None);
    assert_eq!(Register::from_name(&"sp".to_string()), Some(Register::Sp));
    assert_eq!(Register::Sp.index(), 16);
    assert_eq!(Register::Ra.index(), 17);
    assert_eq!(Device::from_name(&"db".to_string()), Some(Device::Db));
    assert_eq!(Device::from_name(&"d5".to_string()), Some(Device::D5));
    assert_eq!(Device::from_name(&"d6".to_string()), None);
    assert_eq!(Device::D5.index(), 6);
    assert_eq!(DeviceVariable::from_name(&"Volume".to_string()), Some(DeviceVariable::Volume));
    assert_eq!(DeviceVariable::Volume.index(), 56);
    assert_eq!(DeviceVariable::Activate.index(), 0);
    assert_eq!(DeviceVariable::from_name(&"volume".to_string()), None);
    assert_eq!(DeviceVariable::PressureExternal.name(), "PressureExternal");
}

#[test]
fn a_result_that_is_not_awaited_is_dropped() {
    let mut simulator = Simulator::new(Program { instructions: vec![mov(Register::R0, 1.0), mov(Register::R1, 2.0)] });
    // no tick has started: nothing is awaited and nothing is left to run
    assert_eq!(simulator.resume(num(9.0)), Ok(Progress::Done(TickResult::LimitHit)));
    assert_eq!(value(&simulator, Register::Sp), 0.0);
    assert_eq!(tick(&mut simulator), Ok(TickResult::End));
    assert_eq!(value(&simulator, Register::R0), 1.0);
    assert_eq!(value(&simulator, Register::R1), 2.0);
}
