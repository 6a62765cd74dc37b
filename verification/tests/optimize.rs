use ayysee::ir::inline::{find_var, InlineState};
use ayysee::ir::optimize::{optimize, remove_unused_variables};
use ayysee::ir::types::{Block, BlockId, Instruction, Program, VarId, VarOrConst, VarValue};
use ayysee::number::Number;

fn constant(x: i64) -> VarOrConst {
    VarOrConst::Const(Number::from_i64(x))
}

fn assignment(id: usize, value: VarValue) -> Instruction {
    Instruction::Assignment { id: VarId(id), value }
}

fn store(value: VarOrConst) -> VarValue {
    VarValue::Call {
        name: "store".to_string(),
        args: vec![VarOrConst::External("d0".to_string()), VarOrConst::External("Setting".to_string()), value],
    }
}

fn single_block(instructions: Vec<Instruction>) -> Program {
    Program { blocks: vec![Block { instructions, next: vec![], prev: vec![] }] }
}

fn ids(program: &Program) -> Vec<usize> {
    let mut list = vec![];
    for b in &program.blocks {
        for ins in &b.instructions {
            if let Instruction::Assignment { id, .. } = ins {
                list.push(id.0);
            }
        }
    }
    list
}

#[test]
fn test_remove_unused_variables() {
    let mut program = single_block(vec![assignment(0, VarValue::Single(constant(1)))]);
    optimize(&mut program);
    assert_eq!(program.blocks[0].instructions.len(), 0);
}

#[test]
fn removal_keeps_what_a_store_depends_on() {
    let mut program = single_block(vec![
        assignment(1, VarValue::Single(constant(1))),
        assignment(2, VarValue::Single(constant(2))),
        assignment(
            3,
            VarValue::BinaryOp {
                lhs: VarOrConst::Var(VarId(1)),
                op: ayysee::ast::BinaryOpcode::Add,
                rhs: constant(5),
            },
        ),
        assignment(4, store(VarOrConst::Var(VarId(3)))),
        assignment(5, VarValue::Single(VarOrConst::Var(VarId(4)))),
    ]);
    assert!(remove_unused_variables(&mut program));
    assert_eq!(ids(&program), vec![1, 3, 4]);
    // nothing is left to remove
    assert!(!remove_unused_variables(&mut program));
    assert_eq!(ids(&program), vec![1, 3, 4]);
}

#[test]
fn removal_keeps_what_a_branch_or_a_return_reads() {
    let mut program = Program {
        blocks: vec![
            Block {
                instructions: vec![
                    assignment(1, VarValue::Single(constant(1))),
                    assignment(2, VarValue::Single(constant(2))),
                    assignment(3, VarValue::Single(constant(3))),
                    Instruction::Yield,
                    Instruction::Return(VarOrConst::Var(VarId(3))),
                    Instruction::Branch {
                        cond: VarOrConst::Var(VarId(1)),
                        true_block: BlockId(1),
                        false_block: BlockId(1),
                    },
                ],
                prev: vec![],
                next: vec![BlockId(1), BlockId(1)],
            },
            Block { instructions: vec![], prev: vec![BlockId(0), BlockId(0)], next: vec![] },
        ],
    };
    assert!(remove_unused_variables(&mut program));
    assert_eq!(ids(&program), vec![1, 3]);
    assert_eq!(program.blocks[0].instructions.len(), 5);
}

#[test]
fn inlining_folds_chains_of_copies() {
    let mut program = single_block(vec![
        assignment(1, VarValue::Single(constant(1))),
        assignment(2, VarValue::Single(VarOrConst::Var(VarId(1)))),
        assignment(3, VarValue::Single(VarOrConst::Var(VarId(2)))),
        assignment(4, store(VarOrConst::Var(VarId(3)))),
    ]);
    ayysee::ir::inline::inline(&mut program);
    assert_eq!(program.blocks[0].instructions.len(), 4);
    match &program.blocks[0].instructions[3] {
        Instruction::Assignment { id: _, value: VarValue::Call { name: _, args } } => {
            assert_eq!(args[2], constant(1));
        }
        other => panic!("{:?}", other),
    }
    match &program.blocks[0].instructions[2] {
        Instruction::Assignment { id: _, value: VarValue::Single(x) } => assert_eq!(*x, constant(1)),
        other => panic!("{:?}", other),
    }
}

#[test]
fn inlining_turns_a_phi_of_one_operand_into_a_copy() {
    let load = VarValue::Call {
        name: "load".to_string(),
        args: vec![VarOrConst::External("d0".to_string()), VarOrConst::External("Setting".to_string())],
    };
    let mut program = single_block(vec![
        assignment(1, load),
        assignment(2, VarValue::Single(VarOrConst::Var(VarId(1)))),
        assignment(3, VarValue::Single(VarOrConst::Var(VarId(1)))),
        assignment(4, VarValue::Phi(vec![VarId(2), VarId(3)])),
        assignment(5, VarValue::Phi(vec![VarId(1), VarId(4)])),
        assignment(6, VarValue::Phi(vec![])),
        assignment(7, store(VarOrConst::Var(VarId(5)))),
    ]);
    ayysee::ir::inline::inline(&mut program);
    for at in [3, 4] {
        match &program.blocks[0].instructions[at] {
            Instruction::Assignment { id: _, value: VarValue::Single(x) } => {
                assert_eq!(*x, VarOrConst::Var(VarId(1)))
            }
            other => panic!("{:?}", other),
        }
    }
    // a phi without operands stays
    assert!(matches!(
        &program.blocks[0].instructions[5],
        Instruction::Assignment { id: _, value: VarValue::Phi(operands) } if operands.is_empty()
    ));
    optimize(&mut program);
    assert_eq!(ids(&program), vec![1, 7]);
}

#[test]
fn inlining_a_second_time_changes_nothing() {
    let mut program = single_block(vec![
        assignment(1, VarValue::Single(constant(1))),
        assignment(2, VarValue::Single(VarOrConst::Var(VarId(1)))),
        assignment(3, store(VarOrConst::Var(VarId(2)))),
    ]);
    ayysee::ir::inline::inline(&mut program);
    let first = format!("{:?}", program);
    ayysee::ir::inline::inline(&mut program);
    assert_eq!(format!("{:?}", program), first);
}

#[test]
fn numbers_that_are_one_key_make_a_phi_a_copy() {
    // 0.0 and -0.0 are one key
    let mut program = single_block(vec![
        assignment(1, VarValue::Single(VarOrConst::Const(Number::from_bits(0)))),
        assignment(2, VarValue::Single(VarOrConst::Const(Number::from_bits(0x8000_0000_0000_0000)))),
        assignment(3, VarValue::Phi(vec![VarId(1), VarId(2)])),
        assignment(4, store(VarOrConst::Var(VarId(3)))),
    ]);
    ayysee::ir::inline::inline(&mut program);
    match &program.blocks[0].instructions[2] {
        Instruction::Assignment { id: _, value: VarValue::Single(x) } => {
            assert_eq!(*x, VarOrConst::Const(Number::from_bits(0)))
        }
        other => panic!("{:?}", other),
    }
}

#[test]
fn find_var_gives_the_place_of_the_assignment() {
    let program = Program {
        blocks: vec![
            Block { instructions: vec![Instruction::Yield], prev: vec![], next: vec![] },
            Block {
                instructions: vec![Instruction::Yield, assignment(7, VarValue::Single(constant(1)))],
                prev: vec![],
                next: vec![],
            },
        ],
    };
    assert_eq!(find_var(&program, VarId(7)), Some((BlockId(1), 1)));
    assert_eq!(find_var(&program, VarId(8)), None);
}

#[test]
fn the_pass_visits_a_value_once() {
    let program = single_block(vec![
        assignment(1, VarValue::Single(constant(1))),
        assignment(2, VarValue::Single(VarOrConst::Var(VarId(1)))),
    ]);
    let mut state = InlineState::new(program);
    state.inline_variable(VarId(2));
    assert_eq!(state.get_value(VarId(2)).map(|v| format!("{:?}", v)), Some(format!("{:?}", VarValue::Single(constant(1)))));
    assert_eq!(state.find_var(VarId(1)), Some((BlockId(0), 0)));
    state.set_var(VarId(1), VarValue::Single(constant(9)));
    // 2 was visited: it is not folded again
    state.inline_variable(VarId(2));
    let program = state.finish();
    assert_eq!(
        format!("{:?}", program.blocks[0].instructions[1]),
        format!("{:?}", assignment(2, VarValue::Single(constant(1))))
    );
}
