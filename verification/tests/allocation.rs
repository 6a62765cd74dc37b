use ayysee::error::Error;
use ayysee::ir::register_allocation::{add_edges, add_edges_rec, color_graph, Graph, NodeTable, RegisterAllocation};
use ayysee::ir::types::{Block, BlockId, Instruction, Program, VarId, VarOrConst, VarValue};
use ayysee::mips::types::Register;
use ayysee::number::Number;

fn load() -> VarValue {
    VarValue::Call {
        name: "load".to_string(),
        args: vec![VarOrConst::External("d0".to_string()), VarOrConst::External("Setting".to_string())],
    }
}

fn store(value: VarOrConst) -> VarValue {
    VarValue::Call {
        name: "store".to_string(),
        args: vec![VarOrConst::External("d0".to_string()), VarOrConst::External("Setting".to_string()), value],
    }
}

fn add(a: usize, b: usize) -> VarValue {
    VarValue::BinaryOp {
        lhs: VarOrConst::Var(VarId(a)),
        op: ayysee::ast::BinaryOpcode::Add,
        rhs: VarOrConst::Var(VarId(b)),
    }
}

fn assignment(id: usize, value: VarValue) -> Instruction {
    Instruction::Assignment { id: VarId(id), value }
}

fn single_block(instructions: Vec<Instruction>) -> Program {
    Program { blocks: vec![Block { instructions, next: vec![], prev: vec![] }] }
}

#[test]
fn an_edge_has_its_way_back_and_no_node_has_an_edge_to_itself() {
    let mut g = Graph::new(4);
    g.add_edge(0, 1);
    g.add_edge(1, 0);
    g.add_edge(2, 2);
    g.add_edge(1, 3);
    // 2 has no edge, and was never made a node
    assert_eq!(g.pick_node(), Some(0));
    assert_eq!(g.remove_node(0), vec![1]);
    assert_eq!(g.remove_node(1), vec![3]);
    assert_eq!(g.remove_node(3), Vec::<usize>::new());
    assert!(g.is_empty());
}

#[test]
fn removing_a_node_removes_its_edges() {
    let mut g = Graph::new(3);
    g.add_edge(0, 1);
    g.add_edge(0, 2);
    g.add_edge(1, 2);
    assert_eq!(g.remove_node(1), vec![0, 2]);
    assert_eq!(g.remove_node(0), vec![2]);
    assert_eq!(g.remove_node(2), Vec::<usize>::new());
    assert_eq!(g.size(), 3);
}

#[test]
fn colouring_gives_the_ends_of_an_edge_different_colours() {
    let mut g = Graph::new(5);
    let edges = [(0, 1), (1, 2), (2, 0), (2, 3), (3, 4)];
    for (a, b) in edges {
        g.add_edge(a, b);
    }
    let mut colors = vec![99; 5];
    assert!(color_graph(&mut g, &mut colors));
    for (a, b) in edges {
        assert_ne!(colors[a], colors[b]);
    }
    for c in &colors {
        assert!(*c < 16);
    }
    // the nodes are taken out 0, 1, 2, 3, 4 and coloured in reverse, each with the
    // smallest colour that none of the neighbours it had when it was taken out has
    assert_eq!(colors, vec![2, 1, 0, 1, 0]);
    assert!(g.is_empty());
}

#[test]
fn colouring_leaves_what_is_no_node() {
    let mut g = Graph::new(3);
    g.add_node(1);
    let mut colors = vec![7, 7, 7];
    assert!(color_graph(&mut g, &mut colors));
    assert_eq!(colors, vec![7, 0, 7]);
}

#[test]
fn seventeen_nodes_that_all_touch_cannot_be_coloured() {
    let mut g = Graph::new(17);
    for a in 0..17 {
        for b in 0..a {
            g.add_edge(a, b);
        }
    }
    let mut colors = vec![5; 17];
    assert!(!color_graph(&mut g, &mut colors));
    assert_eq!(colors, vec![5; 17]);
    // nothing could be taken out
    assert!(!g.is_empty());
    assert_eq!(g.pick_node(), None);
}

#[test]
fn sixteen_nodes_that_all_touch_get_sixteen_colours() {
    let mut g = Graph::new(16);
    for a in 0..16 {
        for b in 0..a {
            g.add_edge(a, b);
        }
    }
    let mut colors = vec![0; 16];
    assert!(color_graph(&mut g, &mut colors));
    let mut sorted = colors.clone();
    sorted.sort();
    assert_eq!(sorted, (0..16).collect::<Vec<usize>>());
}

#[test]
fn values_that_are_read_later_get_edges() {
    // 1 and 2 are both read by 3: while 1 waits, 2 is assigned
    let program = single_block(vec![
        assignment(1, load()),
        assignment(2, load()),
        assignment(3, add(1, 2)),
        assignment(4, store(VarOrConst::Var(VarId(3)))),
    ]);
    let table = NodeTable {
        vars: vec![VarId(1), VarId(2), VarId(3), VarId(4)],
        nodes: vec![Some(0), Some(1), Some(2), Some(3)],
    };
    let mut g = Graph::new(4);
    add_edges(&mut g, &program, VarId(1), &table);
    assert_eq!(g.remove_node(0), vec![1]);

    let mut g = Graph::new(4);
    let mut visited = vec![true];
    let used = add_edges_rec(&mut g, &program, (BlockId(0), 1), VarId(1), &mut visited, &table);
    assert!(used);
    let used = add_edges_rec(&mut g, &program, (BlockId(0), 3), VarId(1), &mut visited, &table);
    assert!(!used);
}

#[test]
fn a_phi_shares_the_register_of_its_operands() {
    let program = Program {
        blocks: vec![
            Block {
                instructions: vec![
                    assignment(1, load()),
                    Instruction::Branch {
                        cond: VarOrConst::Var(VarId(1)),
                        true_block: BlockId(1),
                        false_block: BlockId(2),
                    },
                ],
                prev: vec![],
                next: vec![BlockId(1), BlockId(2)],
            },
            Block {
                instructions: vec![assignment(2, VarValue::Single(VarOrConst::Const(Number::from_i64(1))))],
                prev: vec![BlockId(0)],
                next: vec![BlockId(3)],
            },
            Block {
                instructions: vec![assignment(3, VarValue::Single(VarOrConst::Const(Number::from_i64(2))))],
                prev: vec![BlockId(0)],
                next: vec![BlockId(3)],
            },
            Block {
                instructions: vec![
                    assignment(4, VarValue::Phi(vec![VarId(2), VarId(3)])),
                    assignment(5, store(VarOrConst::Var(VarId(4)))),
                ],
                prev: vec![BlockId(1), BlockId(2)],
                next: vec![],
            },
        ],
    };
    let registers = RegisterAllocation::allocate(&program).ok().unwrap();
    let phi = registers.get(VarId(4));
    assert!(phi.is_some());
    assert_eq!(registers.get(VarId(2)), phi);
    assert_eq!(registers.get(VarId(3)), phi);
    assert_eq!(registers.get(VarId(1)), Some(Register::R0));
    assert_eq!(registers.get(VarId(9)), None);
}

#[test]
fn too_many_values_at_once_is_register_pressure() {
    let mut instructions = vec![];
    for i in 1..=17 {
        instructions.push(assignment(i, load()));
    }
    let mut sum = 1;
    for i in 2..=17 {
        instructions.push(assignment(17 + i, add(sum, i)));
        sum = 17 + i;
    }
    instructions.push(assignment(40, store(VarOrConst::Var(VarId(sum)))));
    let program = single_block(instructions);
    assert!(matches!(RegisterAllocation::allocate(&program), Err(Error::RegisterPressure)));
}
