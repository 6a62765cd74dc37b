//! Why no phi of a program that is built has more operands than its block
//! has predecessors.
//!
//! A phi gets its operands in one of two ways. Read in a sealed block, it
//! gets one operand from each predecessor. Left without operands in a block
//! that is not sealed, it gets them when the block is sealed: one from each
//! predecessor but for those that give the phi itself. After that a block
//! can only gain predecessors.
use vstd::prelude::*;
use crate::ast::{Expr, IfStatement, Statement};
use crate::ir::model::{lemma_connect_inv, lemma_emit_inv, lemma_new_block_inv, lemma_replace_inv};
use crate::ir::model::{Builder, Open, lemma_count_false_update, lemma_missing_assigned, lookup, without_var};
use crate::ir::ssa::{lemma_emit_facts, lemma_replace_facts};
use crate::ir::types::{BlockId, Operand, ProgramView, Step, Value, VarId};

verus! {

impl Step {
    /// Whether the step is no phi with more than `n` operands.
    pub open spec fn phi_within(self, n: nat) -> bool {
        match self {
            Step::Assignment { id, value: Value::Phi(args) } => args.len() <= n,
            _ => true,
        }
    }
}

impl ProgramView {
    /// No phi has more operands than its block has predecessors.
    pub open spec fn phis_bounded(self) -> bool {
        forall|b: int, i: int| #[trigger] self.has(b, i) ==> self.at(b, i).phi_within(self.blocks[b].prev.len())
    }
}

impl Builder {
    /// The state is in order, and no phi has more operands than its block
    /// has predecessors.
    pub open spec fn bounded(self) -> bool {
        self.inv() && self.program.phis_bounded()
    }

    /// Whether `other` is a bounded state with the blocks of this one and
    /// their edges, and the same blocks sealed.
    pub open spec fn read_into(self, other: Builder) -> bool {
        &&& other.bounded()
        &&& self.grown(other)
        &&& other.sealed == self.sealed
    }

    /// Whether `other` is a bounded state with no fewer blocks.
    pub open spec fn built_into(self, other: Builder) -> bool {
        other.bounded() && self.blocks() <= other.blocks()
    }
}

/// A chain of states that each have the blocks of the one before.
proof fn lemma_grown(a: Builder, b: Builder, c: Builder)
    requires
        a.grown(b),
        b.grown(c),
    ensures
        a.grown(c),
{
    assert forall|x: int| 0 <= x < a.blocks() implies (#[trigger] a.program.blocks[x]).prev
        == c.program.blocks[x].prev && a.program.blocks[x].next == c.program.blocks[x].next
        && a.program.blocks[x].instructions.len() <= c.program.blocks[x].instructions.len() by {
        assert(a.program.blocks[x].prev == b.program.blocks[x].prev);
        assert(b.program.blocks[x].prev == c.program.blocks[x].prev);
    }
}

/// A step that is no phi with too many operands can be put at the end of a block.
pub proof fn lemma_emit_bounded(s: Builder, block: BlockId, step: Step)
    requires
        s.bounded(),
        block.0 < s.blocks(),
        step.targets_below(s.blocks() as int),
        step.phi_within(s.program.blocks[block.0 as int].prev.len()),
    ensures
        s.emit(block, step).bounded(),
        s.grown(s.emit(block, step)),
        s.emit(block, step).sealed == s.sealed,
{
    let t = s.emit(block, step);
    lemma_emit_inv(s, block, step);
    lemma_emit_facts(s, block, step);
    assert forall|b: int, i: int| #[trigger] t.program.has(b, i) implies t.program.at(b, i).phi_within(
        t.program.blocks[b].prev.len(),
    ) by {
        if s.program.has(b, i) {
            assert(s.program.at(b, i).phi_within(s.program.blocks[b].prev.len()));
        }
    }
}

/// A step can be replaced by one that is no phi with too many operands.
pub proof fn lemma_replace_bounded(s: Builder, block: BlockId, index: int, step: Step)
    requires
        s.bounded(),
        block.0 < s.blocks(),
        0 <= index < s.program.blocks[block.0 as int].instructions.len(),
        step.targets_below(s.blocks() as int),
        step.phi_within(s.program.blocks[block.0 as int].prev.len()),
    ensures
        s.replace(block, index, step).bounded(),
        s.grown(s.replace(block, index, step)),
        s.replace(block, index, step).sealed == s.sealed,
{
    let t = s.replace(block, index, step);
    lemma_replace_inv(s, block, index, step);
    lemma_replace_facts(s, block, index, step);
    assert forall|b: int, i: int| #[trigger] t.program.has(b, i) implies t.program.at(b, i).phi_within(
        t.program.blocks[b].prev.len(),
    ) by {
        if !(b == block.0 && i == index) {
            assert(s.program.has(b, i));
            assert(s.program.at(b, i).phi_within(s.program.blocks[b].prev.len()));
        }
    }
}

/// A new block has no phi.
pub proof fn lemma_new_block_bounded(s: Builder, sealed: bool)
    requires
        s.bounded(),
    ensures
        s.new_block(sealed).0.bounded(),
        s.new_block(sealed).0.blocks() == s.blocks() + 1,
        s.new_block(sealed).1.0 == s.blocks() || s.blocks() > usize::MAX,
        s.new_block(sealed).1.0 < s.new_block(sealed).0.blocks(),
{
    let t = s.new_block(sealed).0;
    lemma_new_block_inv(s, sealed);
    assert forall|b: int, i: int| #[trigger] t.program.has(b, i) implies t.program.at(b, i).phi_within(
        t.program.blocks[b].prev.len(),
    ) by {
        assert(s.program.has(b, i));
        assert(s.program.at(b, i).phi_within(s.program.blocks[b].prev.len()));
    }
}

/// An edge gives a block one predecessor more.
pub proof fn lemma_connect_bounded(s: Builder, from: BlockId, to: BlockId)
    requires
        s.bounded(),
        from.0 < s.blocks(),
        to.0 < s.blocks(),
    ensures
        s.connect(from, to).bounded(),
        s.connect(from, to).blocks() == s.blocks(),
{
    let t = s.connect(from, to);
    lemma_connect_inv(s, from, to);
    assert forall|b: int, i: int| #[trigger] t.program.has(b, i) implies t.program.at(b, i).phi_within(
        t.program.blocks[b].prev.len(),
    ) by {
        assert(s.program.has(b, i));
        assert(s.program.at(b, i).phi_within(s.program.blocks[b].prev.len()));
    }
}

/// What is left of a list of values is no longer than the list.
pub proof fn lemma_without_var_len(all: Seq<VarId>, id: VarId)
    ensures
        without_var(all, id).len() <= all.len(),
    decreases all.len(),
{
    if all.len() > 0 {
        lemma_without_var_len(all.drop_last(), id);
    }
}

/// A new value can be assigned at the end of a block, unless it is a phi
/// with too many operands.
pub proof fn lemma_add_variable_bounded(s: Builder, block: BlockId, value: Value)
    requires
        s.bounded(),
        block.0 < s.blocks(),
        value is Phi ==> value->Phi_0.len() <= s.program.blocks[block.0 as int].prev.len(),
    ensures
        s.read_into(s.add_variable(block, value).0),
{
    let (s1, id) = s.fresh();
    lemma_emit_bounded(s1, block, Step::Assignment { id, value });
}

/// Reading a name keeps the phis within their bounds.
pub proof fn lemma_read_variable_bounded(s: Builder, block: BlockId, name: Seq<char>)
    requires
        s.bounded(),
        block.0 < s.blocks(),
    ensures
        s.read_into(s.read_variable(block, name).0),
        s.read_variable(block, name).0.lacking(name) <= s.lacking(name),
    decreases s.lacking(name), 0nat, 0nat,
{
    let n = s.blocks();
    match lookup(s.defs, name, block) {
        Some(x) => {},
        None => {
            if !s.is_sealed(block) {
                let (s0, id) = s.fresh();
                let step = Step::Assignment { id, value: Value::Phi(Seq::empty()) };
                lemma_emit_bounded(s0, block, step);
                let s1 = s0.emit(block, step);
                let s2 = s1.assign(block, name, id);
                let index = s2.program.blocks[block.0 as int].instructions.len() - 1;
                let s3 = s2.defer(block, Open { name, var: id, index });
                lemma_missing_assigned(s1.defs, name, block, id, name, n);
                assert forall|b: int, k: int|
                    0 <= b < s3.unresolved.len() && 0 <= k < s3.unresolved[b].len() implies 0 <= (
                #[trigger] s3.unresolved[b][k]).index < s3.program.blocks[b].instructions.len() by {
                    if b == block.0 && k == s1.unresolved[b].len() {
                    } else {
                        assert(s1.unresolved[b][k].index < s1.program.blocks[b].instructions.len());
                    }
                }
            } else {
                let (s1, id) = s.fresh();
                let s2 = s1.assign(block, name, id);
                lemma_missing_assigned(s1.defs, name, block, id, name, n);
                let prevs = s2.program.blocks[block.0 as int].prev;
                assert forall|k: int| 0 <= k < prevs.len() implies (#[trigger] prevs[k]).0 < s2.blocks() by {
                    assert(s.program.blocks[block.0 as int].prev[k].0 < s.program.blocks.len());
                }
                lemma_read_all_bounded(s2, prevs, 0, name);
                let (s3, all) = s2.read_all(prevs, 0, name);
                let value = if all.len() == 1 {
                    Value::Single(Operand::Var(all[0]))
                } else {
                    Value::Phi(all)
                };
                let step = Step::Assignment { id, value };
                assert(s3.program.blocks[block.0 as int].prev == prevs);
                lemma_emit_bounded(s3, block, step);
                let s4 = s3.emit(block, step);
                assert(s.grown(s2));
                lemma_grown(s, s2, s3);
                lemma_grown(s, s3, s4);
            }
        },
    }
}

/// Reading a name in a list of blocks keeps the phis within their bounds,
/// and gives one value for each block.
pub proof fn lemma_read_all_bounded(s: Builder, blocks: Seq<BlockId>, from: int, name: Seq<char>)
    requires
        s.bounded(),
        0 <= from <= blocks.len(),
        forall|k: int| 0 <= k < blocks.len() ==> (#[trigger] blocks[k]).0 < s.blocks(),
    ensures
        s.read_into(s.read_all(blocks, from, name).0),
        s.read_all(blocks, from, name).0.lacking(name) <= s.lacking(name),
        s.read_all(blocks, from, name).1.len() == blocks.len() - from,
    decreases s.lacking(name), 1nat, blocks.len() - from,
{
    if from < blocks.len() {
        lemma_read_variable_bounded(s, blocks[from], name);
        let (s1, v) = s.read_variable(blocks[from], name);
        lemma_read_all_bounded(s1, blocks, from + 1, name);
        let (s2, rest) = s1.read_all(blocks, from + 1, name);
        lemma_grown(s, s1, s2);
    }
}

/// Filling the phis that waited for a block keeps the phis within their bounds.
pub proof fn lemma_resolve_all_bounded(s: Builder, block: BlockId, opens: Seq<Open>, from: int)
    requires
        s.bounded(),
        block.0 < s.blocks(),
        0 <= from,
        forall|k: int|
            from <= k < opens.len() ==> 0 <= (#[trigger] opens[k]).index
                < s.program.blocks[block.0 as int].instructions.len(),
    ensures
        s.read_into(s.resolve_all(block, opens, from)),
    decreases opens.len() - from,
{
    if from < opens.len() {
        let open = opens[from];
        let prevs = s.program.blocks[block.0 as int].prev;
        assert forall|k: int| 0 <= k < prevs.len() implies (#[trigger] prevs[k]).0 < s.blocks() by {
            assert(s.program.blocks[block.0 as int].prev[k].0 < s.program.blocks.len());
        }
        lemma_read_all_bounded(s, prevs, 0, open.name);
        let (s1, all) = s.read_all(prevs, 0, open.name);
        lemma_without_var_len(all, open.var);
        let step = Step::Assignment { id: open.var, value: Value::Phi(without_var(all, open.var)) };
        assert(0 <= open.index < s.program.blocks[block.0 as int].instructions.len());
        assert(s1.program.blocks[block.0 as int].prev == prevs);
        lemma_replace_bounded(s1, block, open.index, step);
        let s2 = s1.replace(block, open.index, step);
        lemma_grown(s, s1, s2);
        assert forall|k: int| from + 1 <= k < opens.len() implies 0 <= (#[trigger] opens[k]).index
            < s2.program.blocks[block.0 as int].instructions.len() by {
            assert(opens[k].index < s.program.blocks[block.0 as int].instructions.len());
        }
        lemma_resolve_all_bounded(s2, block, opens, from + 1);
        lemma_grown(s, s2, s2.resolve_all(block, opens, from + 1));
    }
}

/// Sealing a block keeps the phis within their bounds.
pub proof fn lemma_seal_block_bounded(s: Builder, block: BlockId)
    requires
        s.bounded(),
        block.0 < s.blocks(),
    ensures
        s.seal_block(block).bounded(),
        s.grown(s.seal_block(block)),
        s.seal_block(block).unsealed() <= s.unsealed(),
    decreases s.unsealed(), 0nat, 0nat,
{
    if !s.sealed[block.0 as int] {
        let s1 = Builder {
            sealed: s.sealed.update(block.0 as int, true),
            unresolved: s.unresolved.update(block.0 as int, Seq::empty()),
            ..s
        };
        let opens = s.unresolved[block.0 as int];
        lemma_count_false_update(s.sealed, block.0 as int);
        assert(s1.inv()) by {
            assert forall|b: int, k: int|
                0 <= b < s1.unresolved.len() && 0 <= k < s1.unresolved[b].len() implies 0 <= (
            #[trigger] s1.unresolved[b][k]).index < s1.program.blocks[b].instructions.len() by {
                assert(s.unresolved[b][k].index < s.program.blocks[b].instructions.len());
            }
        }
        assert forall|k: int| 0 <= k < opens.len() implies 0 <= (#[trigger] opens[k]).index
            < s1.program.blocks[block.0 as int].instructions.len() by {
            assert(s.unresolved[block.0 as int][k].index < s.program.blocks[block.0 as int].instructions.len());
        }
        lemma_resolve_all_bounded(s1, block, opens, 0);
        let s2 = s1.resolve_all(block, opens, 0);
        let next = s2.program.blocks[block.0 as int].next;
        assert forall|k: int| 0 <= k < next.len() implies (#[trigger] next[k]).0 < s2.blocks() by {
            assert(s2.program.blocks[block.0 as int].next[k].0 < s2.program.blocks.len());
        }
        lemma_seal_all_bounded(s2, next, 0);
        assert(s.grown(s1));
        lemma_grown(s, s1, s2);
        lemma_grown(s, s2, s2.seal_all(next, 0));
    }
}

/// Sealing a list of blocks keeps the phis within their bounds.
pub proof fn lemma_seal_all_bounded(s: Builder, blocks: Seq<BlockId>, from: int)
    requires
        s.bounded(),
        0 <= from,
        forall|k: int| 0 <= k < blocks.len() ==> (#[trigger] blocks[k]).0 < s.blocks(),
    ensures
        s.seal_all(blocks, from).bounded(),
        s.grown(s.seal_all(blocks, from)),
        s.seal_all(blocks, from).unsealed() <= s.unsealed(),
    decreases s.unsealed(), 1nat, blocks.len() - from,
{
    if from < blocks.len() {
        lemma_seal_block_bounded(s, blocks[from]);
        let s1 = s.seal_block(blocks[from]);
        lemma_seal_all_bounded(s1, blocks, from + 1);
        lemma_grown(s, s1, s1.seal_all(blocks, from + 1));
    }
}

/// Reading an identifier keeps the phis within their bounds.
pub proof fn lemma_lower_name_bounded(s: Builder, block: BlockId, name: Seq<char>)
    requires
        s.bounded(),
        block.0 < s.blocks(),
    ensures
        s.lower_name(block, name) matches Ok((t, operand)) ==> s.built_into(t),
{
    if s.constant(name) is None && s.knows(name) {
        lemma_read_variable_bounded(s, block, name);
    }
}

/// Lowering an expression keeps the phis within their bounds.
pub proof fn lemma_lower_expr_bounded(s: Builder, block: BlockId, expr: Expr)
    requires
        s.bounded(),
        block.0 < s.blocks(),
    ensures
        s.lower_expr(block, expr) matches Ok((t, operand)) ==> s.built_into(t),
    decreases expr, 0nat,
{
    match expr {
        Expr::Constant(v) => {},
        Expr::Identifier(ident) => {
            lemma_lower_name_bounded(s, block, ident@);
        },
        Expr::BinaryOp(lhs_expr, op, rhs_expr) => {
            lemma_lower_expr_bounded(s, block, *lhs_expr);
            if let Ok((s1, lhs)) = s.lower_expr(block, *lhs_expr) {
                lemma_lower_expr_bounded(s1, block, *rhs_expr);
                if let Ok((s2, rhs)) = s1.lower_expr(block, *rhs_expr) {
                    lemma_add_variable_bounded(s2, block, Value::BinaryOp { lhs, op, rhs });
                }
            }
        },
        Expr::UnaryOp(_, _) => {},
        Expr::FunctionCall(ident, args) => {
            lemma_lower_args_bounded(s, block, args, 0);
            if let Ok((s1, list)) = s.lower_args(block, args, 0) {
                lemma_add_variable_bounded(s1, block, Value::Call { name: ident@, args: list });
            }
        },
        Expr::FieldExpr(d, logic) => {
            lemma_lower_name_bounded(s, block, d@);
            if let Ok((s1, arg0)) = s.lower_name(block, d@) {
                lemma_lower_name_bounded(s1, block, logic@);
                if let Ok((s2, arg1)) = s1.lower_name(block, logic@) {
                    lemma_add_variable_bounded(s2, block, Value::Call { name: "load"@, args: seq![arg0, arg1] });
                }
            }
        },
    }
}

/// Lowering the arguments of a call keeps the phis within their bounds.
pub proof fn lemma_lower_args_bounded(s: Builder, block: BlockId, args: Vec<Box<Expr>>, from: int)
    requires
        s.bounded(),
        block.0 < s.blocks(),
        0 <= from,
    ensures
        s.lower_args(block, args, from) matches Ok((t, list)) ==> s.built_into(t),
    decreases args, args.len() - from,
{
    if from < args.len() {
        lemma_lower_expr_bounded(s, block, *args[from]);
        if let Ok((s1, first)) = s.lower_expr(block, *args[from]) {
            lemma_lower_args_bounded(s1, block, args, from + 1);
        }
    }
}

/// Making an operand a value of the program keeps the phis within their bounds.
pub proof fn lemma_as_variable_bounded(s: Builder, block: BlockId, operand: Operand)
    requires
        s.bounded(),
        block.0 < s.blocks(),
    ensures
        s.built_into(s.as_variable(block, operand).0),
{
    match operand {
        Operand::Var(id) => {},
        _ => {
            lemma_add_variable_bounded(s, block, Value::Single(operand));
        },
    }
}

/// Lowering a statement keeps the phis within their bounds.
pub proof fn lemma_lower_stmt_bounded(s: Builder, block: BlockId, stmt: Statement)
    requires
        s.bounded(),
        block.0 < s.blocks(),
    ensures
        s.lower_stmt(block, stmt) matches Ok((t, next)) ==> s.built_into(t) && next.0 < t.blocks(),
    decreases stmt, 0nat,
{
    match stmt {
        Statement::FunctionCall { identifier, arguments } => {
            lemma_lower_args_bounded(s, block, arguments, 0);
            if let Ok((s1, args)) = s.lower_args(block, arguments, 0) {
                lemma_add_variable_bounded(s1, block, Value::Call { name: identifier@, args });
            }
        },
        Statement::Definition { identifier, expression } => {
            lemma_lower_expr_bounded(s, block, *expression);
            if let Ok((s1, v)) = s.lower_expr(block, *expression) {
                lemma_as_variable_bounded(s1, block, v);
            }
        },
        Statement::Assignment { lhs, rhs } => {
            lemma_lower_expr_bounded(s, block, *rhs);
            if let Ok((s1, v)) = s.lower_expr(block, *rhs) {
                lemma_as_variable_bounded(s1, block, v);
                let (s2, id) = s1.as_variable(block, v);
                match *lhs {
                    Expr::Identifier(ident) => {},
                    Expr::FieldExpr(d, logic) => {
                        lemma_lower_name_bounded(s2, block, d@);
                        if let Ok((s3, arg0)) = s2.lower_name(block, d@) {
                            lemma_lower_name_bounded(s3, block, logic@);
                            if let Ok((s4, arg1)) = s3.lower_name(block, logic@) {
                                lemma_add_variable_bounded(
                                    s4,
                                    block,
                                    Value::Call { name: "store"@, args: seq![arg0, arg1, Operand::Var(id)] },
                                );
                            }
                        }
                    },
                    _ => {},
                }
            }
        },
        Statement::Constant(identifier, expression) => {
            lemma_lower_expr_bounded(s, block, *expression);
        },
        Statement::IfStatement(if_stmt) => {
            lemma_lower_if_bounded(s, block, if_stmt);
        },
        Statement::Loop { body } => {
            let (s1, block_next) = s.new_block(false);
            lemma_new_block_bounded(s, false);
            let (s2, block_body) = s1.new_block(false);
            lemma_new_block_bounded(s1, false);
            let s3 = s2.connect(block, block_body);
            lemma_connect_bounded(s2, block, block_body);
            lemma_lower_stmts_bounded(s3, block_body, *body.statement_list(), 0);
            if let Ok((s4, body_end)) = s3.lower_stmts(block_body, *body.statement_list(), 0) {
                let s5 = s4.connect(body_end, block_body);
                lemma_connect_bounded(s4, body_end, block_body);
                if s5.is_sealed(block) {
                    lemma_seal_block_bounded(s5, block_body);
                }
            }
        },
        Statement::Yield => {
            lemma_emit_bounded(s, block, Step::Yield);
        },
        Statement::Return(expr) => {
            lemma_lower_expr_bounded(s, block, *expr);
            if let Ok((s1, v)) = s.lower_expr(block, *expr) {
                lemma_emit_bounded(s1, block, Step::Return(v));
            }
        },
        _ => {},
    }
}

/// Lowering a conditional keeps the phis within their bounds.
pub proof fn lemma_lower_if_bounded(s: Builder, block: BlockId, statement: IfStatement)
    requires
        s.bounded(),
        block.0 < s.blocks(),
    ensures
        s.lower_if(block, statement) matches Ok((t, next)) ==> s.built_into(t) && next.0 < t.blocks(),
    decreases statement, 0nat,
{
    let (condition, body) = match statement {
        IfStatement::If { condition, body } => (condition, body),
        IfStatement::IfElse { condition, body, else_body } => (condition, body),
    };
    let sealed = s.is_sealed(block);
    lemma_lower_expr_bounded(s, block, *condition);
    if let Ok((s1, cond)) = s.lower_expr(block, *condition) {
        let (s2, true_start) = s1.new_block(sealed);
        lemma_new_block_bounded(s1, sealed);
        let s3 = s2.connect(block, true_start);
        lemma_connect_bounded(s2, block, true_start);
        lemma_lower_stmts_bounded(s3, true_start, *body.statement_list(), 0);
        if let Ok((s4, true_end)) = s3.lower_stmts(true_start, *body.statement_list(), 0) {
            let (s5, false_start) = s4.new_block(sealed);
            lemma_new_block_bounded(s4, sealed);
            let s6 = s5.connect(block, false_start);
            lemma_connect_bounded(s5, block, false_start);
            let lowered = match statement {
                IfStatement::If { condition, body } => Ok((s6, false_start)),
                IfStatement::IfElse { condition, body, else_body } => {
                    lemma_lower_stmts_bounded(s6, false_start, *else_body.statement_list(), 0);
                    s6.lower_stmts(false_start, *else_body.statement_list(), 0)
                },
            };
            if let Ok((s7, false_end)) = lowered {
                let step = Step::Branch { cond, true_block: true_start, false_block: false_start };
                lemma_emit_bounded(s7, block, step);
                let s8 = s7.emit(block, step);
                let (s9, join) = s8.new_block(sealed);
                lemma_new_block_bounded(s8, sealed);
                let s10 = s9.connect(true_end, join);
                lemma_connect_bounded(s9, true_end, join);
                lemma_connect_bounded(s10, false_end, join);
            }
        }
    }
}

/// Lowering statements keeps the phis within their bounds.
pub proof fn lemma_lower_stmts_bounded(s: Builder, block: BlockId, stmts: Vec<Statement>, from: int)
    requires
        s.bounded(),
        block.0 < s.blocks(),
        0 <= from,
    ensures
        s.lower_stmts(block, stmts, from) matches Ok((t, next)) ==> s.built_into(t) && next.0 < t.blocks(),
    decreases stmts, stmts.len() - from,
{
    if from < stmts.len() {
        lemma_lower_stmt_bounded(s, block, stmts[from]);
        if let Ok((s1, next)) = s.lower_stmt(block, stmts[from]) {
            lemma_lower_stmts_bounded(s1, next, stmts, from + 1);
        }
    }
}

/// In every program that is built, no phi has more operands than its
/// block has predecessors.
pub proof fn lemma_build_phis_bounded(stmts: Vec<Statement>)
    ensures
        Builder::build(stmts) matches Ok(p) ==> p.phis_bounded(),
{
    let s0 = Builder::empty();
    assert(s0.bounded());
    let (s1, entry) = s0.new_block(true);
    lemma_new_block_bounded(s0, true);
    let s2 = s1.init();
    assert(s2.bounded());
    lemma_lower_stmts_bounded(s2, entry, stmts, 0);
}

/// Reading a name in a list of blocks shortens no block and adds none.
pub proof fn lemma_lengths_read_all(s: Builder, blocks: Seq<BlockId>, from: int, name: Seq<char>)
    requires
        s.inv(),
        0 <= from,
        forall|k: int| 0 <= k < blocks.len() ==> (#[trigger] blocks[k]).0 < s.blocks(),
    ensures
        s.grown(s.read_all(blocks, from, name).0),
        s.read_all(blocks, from, name).0.inv(),
        s.read_all(blocks, from, name).0.lacking(name) <= s.lacking(name),
    decreases s.lacking(name), 1nat, blocks.len() - from,
{
    if from < blocks.len() {
        lemma_lengths_read_variable(s, blocks[from], name);
        let (s1, v) = s.read_variable(blocks[from], name);
        lemma_lengths_read_all(s1, blocks, from + 1, name);
        lemma_grown(s, s1, s1.read_all(blocks, from + 1, name).0);
    }
}

/// Reading a name shortens no block and adds none.
pub proof fn lemma_lengths_read_variable(s: Builder, block: BlockId, name: Seq<char>)
    requires
        s.inv(),
        block.0 < s.blocks(),
    ensures
        s.grown(s.read_variable(block, name).0),
        s.read_variable(block, name).0.inv(),
        s.read_variable(block, name).0.lacking(name) <= s.lacking(name),
    decreases s.lacking(name), 0nat, 0nat,
{
    let n = s.blocks();
    match lookup(s.defs, name, block) {
        Some(x) => {},
        None => {
            if !s.is_sealed(block) {
                let (s0, id) = s.fresh();
                let step = Step::Assignment { id, value: Value::Phi(Seq::empty()) };
                lemma_emit_inv(s0, block, step);
                let s1 = s0.emit(block, step);
                let s2 = s1.assign(block, name, id);
                let index = s2.program.blocks[block.0 as int].instructions.len() - 1;
                let s3 = s2.defer(block, Open { name, var: id, index });
                lemma_missing_assigned(s1.defs, name, block, id, name, n);
                assert forall|b: int, k: int|
                    0 <= b < s3.unresolved.len() && 0 <= k < s3.unresolved[b].len() implies 0 <= (
                #[trigger] s3.unresolved[b][k]).index < s3.program.blocks[b].instructions.len() by {
                    if b == block.0 && k == s1.unresolved[b].len() {
                    } else {
                        assert(s1.unresolved[b][k].index < s1.program.blocks[b].instructions.len());
                    }
                }
            } else {
                let (s1, id) = s.fresh();
                let s2 = s1.assign(block, name, id);
                lemma_missing_assigned(s1.defs, name, block, id, name, n);
                let prevs = s2.program.blocks[block.0 as int].prev;
                assert forall|k: int| 0 <= k < prevs.len() implies (#[trigger] prevs[k]).0 < s2.blocks() by {
                    assert(s.program.blocks[block.0 as int].prev[k].0 < s.program.blocks.len());
                }
                lemma_lengths_read_all(s2, prevs, 0, name);
                let (s3, all) = s2.read_all(prevs, 0, name);
                let value = if all.len() == 1 {
                    Value::Single(Operand::Var(all[0]))
                } else {
                    Value::Phi(all)
                };
                let step = Step::Assignment { id, value };
                lemma_emit_inv(s3, block, step);
                let s4 = s3.emit(block, step);
                assert(s.grown(s2));
                lemma_grown(s, s2, s3);
                lemma_grown(s, s3, s4);
            }
        },
    }
}

} // verus!
