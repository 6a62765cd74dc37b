//! Why the blocks of a program that is built hang together as they should.
//!
//! Every edge is noted at both its ends. A block gets its successors at one
//! point of the construction: two, with the branch that chooses between
//! them, where a conditional starts in it, and one where a loop starts in
//! it or where it runs into the next block. After that the construction
//! goes on in another block.
use vstd::prelude::*;
use crate::ast::{Expr, IfStatement, Statement};
use crate::ir::model::{
    Builder,
    Open,
    lemma_connect_inv,
    lemma_count_false_update,
    lemma_emit_inv,
    lemma_missing_assigned,
    lemma_new_block_inv,
    lemma_replace_inv,
    lookup,
    without_var,
};
use crate::ir::types::{BlockId, BlockView, Operand, ProgramView, Step, Value};

verus! {

/// How many of the steps are branches.
pub open spec fn branches(s: Seq<Step>) -> nat
    decreases s.len(),
{
    if s.len() == 0 {
        0
    } else {
        branches(s.drop_last()) + if s.last() is Branch {
            1nat
        } else {
            0nat
        }
    }
}

/// The blocks that the last branch among the steps chooses between.
pub open spec fn targets(s: Seq<Step>) -> Option<(BlockId, BlockId)>
    decreases s.len(),
{
    if s.len() == 0 {
        None
    } else {
        match s.last() {
            Step::Branch { cond, true_block, false_block } => Some((true_block, false_block)),
            _ => targets(s.drop_last()),
        }
    }
}

impl BlockView {
    /// The block has no successor and no branch: it is where the
    /// construction goes on.
    pub open spec fn open(self) -> bool {
        self.next.len() == 0 && branches(self.instructions) == 0
    }

    /// The block has at most one successor and no branch, or two
    /// successors and one branch, which chooses between them.
    pub open spec fn settled(self) -> bool {
        if branches(self.instructions) == 0 {
            self.next.len() <= 1
        } else {
            &&& branches(self.instructions) == 1
            &&& self.next.len() == 2
            &&& targets(self.instructions) == Some((self.next[0], self.next[1]))
        }
    }

    /// The block has no branch yet, and at most two successors.
    pub open spec fn branching(self) -> bool {
        branches(self.instructions) == 0 && self.next.len() <= 2
    }
}

impl ProgramView {
    /// Every edge is noted at both its ends: a block is among the
    /// successors of another exactly if that one is among its predecessors.
    pub open spec fn edges_paired(self) -> bool {
        forall|a: BlockId, b: BlockId|
            a.0 < self.blocks.len() && b.0 < self.blocks.len() ==> (#[trigger] self.blocks[a.0 as int].next.contains(
                b,
            ) <==> #[trigger] self.blocks[b.0 as int].prev.contains(a))
    }

    /// Every block is settled.
    pub open spec fn settled(self) -> bool {
        forall|b: int| 0 <= b < self.blocks.len() ==> (#[trigger] self.blocks[b]).settled()
    }
}

impl Builder {
    /// Every edge is noted at both its ends, every block is settled but
    /// for those of `busy`, in which a conditional has started and which
    /// have no branch yet, and every phi that waits stands where an
    /// assignment is.
    #[verifier::opaque]
    pub open spec fn neat(self, busy: Set<BlockId>) -> bool {
        &&& self.program.edges_paired()
        &&& forall|b: int|
            0 <= b < self.blocks() ==> if busy.contains(BlockId(b as usize)) {
                (#[trigger] self.program.blocks[b]).branching()
            } else {
                self.program.blocks[b].settled()
            }
        &&& forall|x: BlockId| #[trigger] busy.contains(x) ==> x.0 < self.blocks()
        &&& forall|b: int, k: int|
            0 <= b < self.unresolved.len() && 0 <= k < self.unresolved[b].len() ==> self.program.blocks[b].instructions[(
            #[trigger] self.unresolved[b][k]).index] is Assignment
        &&& self.blocks() <= usize::MAX
    }

    /// The state is in order and, unless the numbers have run out, neat.
    pub open spec fn tidy(self, busy: Set<BlockId>) -> bool {
        self.inv() && (self.overflow || self.neat(busy))
    }

    /// Whether `other` has the edges and the branches of this state in
    /// every block, and an assignment wherever this state has one.
    #[verifier::opaque]
    pub open spec fn same_edges(self, other: Builder) -> bool {
        &&& self.blocks() == other.blocks()
        &&& forall|b: int|
            0 <= b < self.blocks() ==> (#[trigger] self.program.blocks[b]).prev == other.program.blocks[b].prev
                && self.program.blocks[b].next == other.program.blocks[b].next && branches(
                self.program.blocks[b].instructions,
            ) == branches(other.program.blocks[b].instructions) && targets(self.program.blocks[b].instructions)
                == targets(other.program.blocks[b].instructions) && self.program.blocks[b].instructions.len()
                <= other.program.blocks[b].instructions.len()
        &&& forall|b: int, i: int| #[trigger]
            self.program.has(b, i) && self.program.at(b, i) is Assignment ==> other.program.at(b, i) is Assignment
    }

    /// Whether `other` has the successors and the branches of this state
    /// in every block of this state but `current`.
    #[verifier::opaque]
    pub open spec fn same_edges_but(self, other: Builder, current: BlockId) -> bool {
        &&& self.blocks() <= other.blocks()
        &&& forall|b: int|
            0 <= b < self.blocks() && b != current.0 ==> (#[trigger] self.program.blocks[b]).next
                == other.program.blocks[b].next && branches(self.program.blocks[b].instructions) == branches(
                other.program.blocks[b].instructions,
            ) && targets(self.program.blocks[b].instructions) == targets(other.program.blocks[b].instructions)
    }

    /// What reading and sealing keep: the state stays tidy, with the same
    /// blocks sealed or more, and the same edges and branches.
    pub open spec fn read_tidy(self, from: Builder, busy: Set<BlockId>) -> bool {
        &&& self.tidy(busy)
        &&& from.overflow ==> self.overflow
        &&& self.blocks() == from.blocks()
        &&& self.overflow || from.same_edges(self)
    }

    /// What lowering statements from `start` keeps: the state stays tidy;
    /// the block where what follows goes on is open, is not busy, and is
    /// `start` or a new block; and the other blocks keep their successors
    /// and branches.
    pub open spec fn lowered_tidy(self, from: Builder, busy: Set<BlockId>, start: BlockId, next: BlockId) -> bool {
        &&& self.tidy(busy)
        &&& from.overflow ==> self.overflow
        &&& next.0 < self.blocks()
        &&& from.blocks() <= self.blocks()
        &&& self.overflow || {
            &&& self.program.blocks[next.0 as int].open()
            &&& !busy.contains(next)
            &&& next == start || next.0 >= from.blocks()
            &&& from.same_edges_but(self, start)
        }
    }
}

/// A chain of states that each have the edges of the one before.
proof fn lemma_same_edges(a: Builder, b: Builder, c: Builder)
    requires
        a.same_edges(b),
        b.same_edges(c),
    ensures
        a.same_edges(c),
{
    reveal(Builder::same_edges);
    reveal(Builder::same_edges_but);
    assert forall|x: int| 0 <= x < a.blocks() implies (#[trigger] a.program.blocks[x]).prev
        == c.program.blocks[x].prev && a.program.blocks[x].next == c.program.blocks[x].next && branches(
        a.program.blocks[x].instructions,
    ) == branches(c.program.blocks[x].instructions) && targets(a.program.blocks[x].instructions) == targets(
        c.program.blocks[x].instructions,
    ) && a.program.blocks[x].instructions.len() <= c.program.blocks[x].instructions.len() by {
        assert(a.program.blocks[x].prev == b.program.blocks[x].prev);
        assert(b.program.blocks[x].prev == c.program.blocks[x].prev);
    }
    assert forall|x: int, i: int| #[trigger] a.program.has(x, i) && a.program.at(x, i) is Assignment implies c.program.at(
        x,
        i,
    ) is Assignment by {
        assert(a.program.blocks[x].instructions.len() <= b.program.blocks[x].instructions.len());
        assert(b.program.has(x, i));
        assert(b.program.at(x, i) is Assignment);
    }
}

/// A chain of states that keep reading.
proof fn lemma_read_tidy(a: Builder, b: Builder, c: Builder, busy: Set<BlockId>)
    requires
        b.read_tidy(a, busy),
        c.read_tidy(b, busy),
    ensures
        c.read_tidy(a, busy),
{
    reveal(Builder::same_edges);
    reveal(Builder::same_edges_but);
    if !c.overflow {
        lemma_same_edges(a, b, c);
    }
}

/// A state with the edges and branches of a neat state is neat, if its
/// waiting phis stand where assignments are.
proof fn lemma_neat_kept(s: Builder, t: Builder, busy: Set<BlockId>)
    requires
        s.neat(busy),
        s.same_edges(t),
        forall|b: int, k: int|
            0 <= b < t.unresolved.len() && 0 <= k < t.unresolved[b].len() ==> t.program.blocks[b].instructions[(
            #[trigger] t.unresolved[b][k]).index] is Assignment,
    ensures
        t.neat(busy),
{
    reveal(Builder::same_edges);
    reveal(Builder::same_edges_but);
    reveal(Builder::neat);
    assert forall|a: BlockId, b: BlockId| a.0 < t.program.blocks.len() && b.0 < t.program.blocks.len() implies (
    #[trigger] t.program.blocks[a.0 as int].next.contains(b) <==> #[trigger] t.program.blocks[b.0 as int].prev.contains(
        a,
    )) by {
        assert(s.program.blocks[a.0 as int].next == t.program.blocks[a.0 as int].next);
        assert(s.program.blocks[b.0 as int].prev == t.program.blocks[b.0 as int].prev);
        assert(s.program.blocks[a.0 as int].next.contains(b) <==> s.program.blocks[b.0 as int].prev.contains(a));
    }
    assert forall|b: int| 0 <= b < t.blocks() implies if busy.contains(BlockId(b as usize)) {
        (#[trigger] t.program.blocks[b]).branching()
    } else {
        t.program.blocks[b].settled()
    } by {
        assert(s.program.blocks[b].next == t.program.blocks[b].next);
        if busy.contains(BlockId(b as usize)) {
            assert(s.program.blocks[b].branching());
        } else {
            assert(s.program.blocks[b].settled());
        }
    }
}

/// A step that is no branch at the end of a block changes no edge and no branch.
pub proof fn lemma_emit_tidy(s: Builder, busy: Set<BlockId>, block: BlockId, step: Step)
    requires
        s.tidy(busy),
        block.0 < s.blocks(),
        !(step is Branch),
    ensures
        s.emit(block, step).read_tidy(s, busy),
        s.emit(block, step).sealed == s.sealed,
{
    reveal(Builder::same_edges);
    reveal(Builder::same_edges_but);
    reveal(Builder::neat);
    let t = s.emit(block, step);
    lemma_emit_inv(s, block, step);
    if !t.overflow {
        let old = s.program.blocks[block.0 as int].instructions;
        assert(old.push(step).drop_last() =~= old);
        assert forall|b: int, k: int|
            0 <= b < t.unresolved.len() && 0 <= k < t.unresolved[b].len() implies t.program.blocks[b].instructions[(
        #[trigger] t.unresolved[b][k]).index] is Assignment by {
            assert(s.program.blocks[b].instructions[s.unresolved[b][k].index] is Assignment);
            assert(0 <= s.unresolved[b][k].index < s.program.blocks[b].instructions.len());
        }
        lemma_neat_kept(s, t, busy);
    }
}

/// Putting a step that is no branch in the place of one changes no branch.
pub proof fn lemma_update_branches(steps: Seq<Step>, index: int, step: Step)
    requires
        0 <= index < steps.len(),
        !(steps[index] is Branch),
        !(step is Branch),
    ensures
        branches(steps.update(index, step)) == branches(steps),
        targets(steps.update(index, step)) == targets(steps),
    decreases steps.len(),
{
    reveal(Builder::same_edges);
    reveal(Builder::same_edges_but);
    let after = steps.update(index, step);
    if index == steps.len() - 1 {
        assert(after.drop_last() =~= steps.drop_last());
    } else {
        assert(after.drop_last() =~= steps.drop_last().update(index, step));
        lemma_update_branches(steps.drop_last(), index, step);
    }
}

/// Replacing an assignment by an assignment changes no edge and no branch.
pub proof fn lemma_replace_tidy(s: Builder, busy: Set<BlockId>, block: BlockId, index: int, step: Step)
    requires
        s.tidy(busy),
        block.0 < s.blocks(),
        0 <= index < s.program.blocks[block.0 as int].instructions.len(),
        s.overflow || s.program.blocks[block.0 as int].instructions[index] is Assignment,
        step is Assignment,
    ensures
        s.replace(block, index, step).read_tidy(s, busy),
        s.replace(block, index, step).sealed == s.sealed,
{
    reveal(Builder::same_edges);
    reveal(Builder::same_edges_but);
    reveal(Builder::neat);
    let t = s.replace(block, index, step);
    lemma_replace_inv(s, block, index, step);
    if !t.overflow {
        lemma_update_branches(s.program.blocks[block.0 as int].instructions, index, step);
        assert forall|b: int, k: int|
            0 <= b < t.unresolved.len() && 0 <= k < t.unresolved[b].len() implies t.program.blocks[b].instructions[(
        #[trigger] t.unresolved[b][k]).index] is Assignment by {
            assert(s.program.blocks[b].instructions[s.unresolved[b][k].index] is Assignment);
        }
        lemma_neat_kept(s, t, busy);
    }
}

/// A new value at the end of a block changes no edge and no branch.
pub proof fn lemma_add_variable_tidy(s: Builder, busy: Set<BlockId>, block: BlockId, value: Value)
    requires
        s.tidy(busy),
        block.0 < s.blocks(),
    ensures
        s.add_variable(block, value).0.read_tidy(s, busy),
        s.add_variable(block, value).0.sealed == s.sealed,
{
    reveal(Builder::same_edges);
    reveal(Builder::same_edges_but);
    reveal(Builder::neat);
    let (s1, id) = s.fresh();
    assert(s1.tidy(busy));
    assert(s1.overflow || s.same_edges(s1));
    lemma_emit_tidy(s1, busy, block, Step::Assignment { id, value });
    let t = s1.emit(block, Step::Assignment { id, value });
    if !t.overflow {
        lemma_same_edges(s, s1, t);
    }
}

/// Reading a name changes no edge and no branch.
pub proof fn lemma_read_variable_tidy(s: Builder, busy: Set<BlockId>, block: BlockId, name: Seq<char>)
    requires
        s.tidy(busy),
        block.0 < s.blocks(),
    ensures
        s.read_variable(block, name).0.read_tidy(s, busy),
        s.read_variable(block, name).0.sealed == s.sealed,
        s.read_variable(block, name).0.lacking(name) <= s.lacking(name),
    decreases s.lacking(name), 0nat, 0nat,
{
    reveal(Builder::same_edges);
    reveal(Builder::same_edges_but);
    reveal(Builder::neat);
    let n = s.blocks();
    match lookup(s.defs, name, block) {
        Some(x) => {
            assert(s.overflow || s.same_edges(s));
        },
        None => {
            if !s.is_sealed(block) {
                lemma_add_variable_tidy(s, busy, block, Value::Phi(Seq::empty()));
                let (s1, id) = s.add_variable(block, Value::Phi(Seq::empty()));
                let s2 = s1.assign(block, name, id);
                let index = s2.program.blocks[block.0 as int].instructions.len() - 1;
                let s3 = s2.defer(block, Open { name, var: id, index });
                lemma_missing_assigned(s1.defs, name, block, id, name, n);
                assert(s3.inv()) by {
                    assert forall|b: int, k: int|
                        0 <= b < s3.unresolved.len() && 0 <= k < s3.unresolved[b].len() implies 0 <= (
                    #[trigger] s3.unresolved[b][k]).index < s3.program.blocks[b].instructions.len() by {
                        if b == block.0 && k == s1.unresolved[b].len() {
                        } else {
                            assert(s1.unresolved[b][k].index < s1.program.blocks[b].instructions.len());
                        }
                    }
                }
                if !s3.overflow {
                    assert forall|b: int, k: int|
                        0 <= b < s3.unresolved.len() && 0 <= k < s3.unresolved[b].len() implies s3.program.blocks[b].instructions[(
                    #[trigger] s3.unresolved[b][k]).index] is Assignment by {
                        if b == block.0 && k == s1.unresolved[b].len() {
                        } else {
                            assert(s1.program.blocks[b].instructions[s1.unresolved[b][k].index] is Assignment);
                        }
                    }
                    assert(s1.same_edges(s3));
                    lemma_neat_kept(s1, s3, busy);
                    lemma_same_edges(s, s1, s3);
                }
            } else {
                let (s1, id) = s.fresh();
                let s2 = s1.assign(block, name, id);
                assert(s2.tidy(busy));
                assert(s2.overflow || s.same_edges(s2));
                lemma_missing_assigned(s1.defs, name, block, id, name, n);
                let prevs = s2.program.blocks[block.0 as int].prev;
                assert forall|k: int| 0 <= k < prevs.len() implies (#[trigger] prevs[k]).0 < s2.blocks() by {
                    assert(s.program.blocks[block.0 as int].prev[k].0 < s.program.blocks.len());
                }
                lemma_read_all_tidy(s2, busy, prevs, 0, name);
                let (s3, all) = s2.read_all(prevs, 0, name);
                let value = if all.len() == 1 {
                    Value::Single(Operand::Var(all[0]))
                } else {
                    Value::Phi(all)
                };
                let step = Step::Assignment { id, value };
                lemma_emit_tidy(s3, busy, block, step);
                let s4 = s3.emit(block, step);
                if !s4.overflow {
                    lemma_same_edges(s, s2, s3);
                    lemma_same_edges(s, s3, s4);
                }
            }
        },
    }
}

/// Reading a name in a list of blocks changes no edge and no branch.
pub proof fn lemma_read_all_tidy(s: Builder, busy: Set<BlockId>, blocks: Seq<BlockId>, from: int, name: Seq<char>)
    requires
        s.tidy(busy),
        0 <= from,
        forall|k: int| 0 <= k < blocks.len() ==> (#[trigger] blocks[k]).0 < s.blocks(),
    ensures
        s.read_all(blocks, from, name).0.read_tidy(s, busy),
        s.read_all(blocks, from, name).0.sealed == s.sealed,
        s.read_all(blocks, from, name).0.lacking(name) <= s.lacking(name),
    decreases s.lacking(name), 1nat, blocks.len() - from,
{
    reveal(Builder::same_edges);
    reveal(Builder::same_edges_but);
    if from < blocks.len() {
        lemma_read_variable_tidy(s, busy, blocks[from], name);
        let (s1, v) = s.read_variable(blocks[from], name);
        lemma_read_all_tidy(s1, busy, blocks, from + 1, name);
        lemma_read_tidy(s, s1, s1.read_all(blocks, from + 1, name).0, busy);
    } else {
        assert(s.overflow || s.same_edges(s));
    }
}

/// Filling the phis that waited for a block changes no edge and no branch.
pub proof fn lemma_resolve_all_tidy(s: Builder, busy: Set<BlockId>, block: BlockId, opens: Seq<Open>, from: int)
    requires
        s.tidy(busy),
        block.0 < s.blocks(),
        0 <= from,
        forall|k: int|
            from <= k < opens.len() ==> 0 <= (#[trigger] opens[k]).index
                < s.program.blocks[block.0 as int].instructions.len(),
        s.overflow || forall|k: int|
            from <= k < opens.len() ==> s.program.blocks[block.0 as int].instructions[(
            #[trigger] opens[k]).index] is Assignment,
    ensures
        s.resolve_all(block, opens, from).read_tidy(s, busy),
        s.resolve_all(block, opens, from).sealed == s.sealed,
    decreases opens.len() - from,
{
    reveal(Builder::same_edges);
    reveal(Builder::same_edges_but);
    reveal(Builder::neat);
    if from < opens.len() {
        let open = opens[from];
        let prevs = s.program.blocks[block.0 as int].prev;
        assert forall|k: int| 0 <= k < prevs.len() implies (#[trigger] prevs[k]).0 < s.blocks() by {
            assert(s.program.blocks[block.0 as int].prev[k].0 < s.program.blocks.len());
        }
        lemma_read_all_tidy(s, busy, prevs, 0, open.name);
        let (s1, all) = s.read_all(prevs, 0, open.name);
        let step = Step::Assignment { id: open.var, value: Value::Phi(without_var(all, open.var)) };
        assert(0 <= open.index < s.program.blocks[block.0 as int].instructions.len());
        lemma_grown_from_read(s, s1, block, open.name, prevs);
        if !s1.overflow {
            assert(s.program.has(block.0 as int, open.index));
            assert(s.program.at(block.0 as int, open.index) is Assignment);
            assert(s1.program.at(block.0 as int, open.index) is Assignment);
        }
        lemma_replace_tidy(s1, busy, block, open.index, step);
        let s2 = s1.replace(block, open.index, step);
        lemma_read_tidy(s, s1, s2, busy);
        assert forall|k: int| from + 1 <= k < opens.len() implies 0 <= (#[trigger] opens[k]).index
            < s2.program.blocks[block.0 as int].instructions.len() by {
            assert(opens[k].index < s.program.blocks[block.0 as int].instructions.len());
        }
        if !s2.overflow {
            assert forall|k: int| from + 1 <= k < opens.len() implies s2.program.blocks[block.0 as int].instructions[(
            #[trigger] opens[k]).index] is Assignment by {
                assert(s.program.has(block.0 as int, opens[k].index));
                assert(s.program.at(block.0 as int, opens[k].index) is Assignment);
                assert(s2.program.at(block.0 as int, opens[k].index) is Assignment);
            }
        }
        lemma_resolve_all_tidy(s2, busy, block, opens, from + 1);
        lemma_read_tidy(s, s2, s2.resolve_all(block, opens, from + 1), busy);
    } else {
        assert(s.overflow || s.same_edges(s));
    }
}

/// Reading a name in the predecessors of a block shortens no block.
proof fn lemma_grown_from_read(s: Builder, t: Builder, block: BlockId, name: Seq<char>, prevs: Seq<BlockId>)
    requires
        s.inv(),
        block.0 < s.blocks(),
        forall|k: int| 0 <= k < prevs.len() ==> (#[trigger] prevs[k]).0 < s.blocks(),
        t == s.read_all(prevs, 0, name).0,
    ensures
        s.program.blocks[block.0 as int].instructions.len() <= t.program.blocks[block.0 as int].instructions.len(),
        t.blocks() == s.blocks(),
{
    reveal(Builder::same_edges);
    reveal(Builder::same_edges_but);
    crate::ir::phis::lemma_lengths_read_all(s, prevs, 0, name);
}

/// Sealing a block changes no edge and no branch.
pub proof fn lemma_seal_block_tidy(s: Builder, busy: Set<BlockId>, block: BlockId)
    requires
        s.tidy(busy),
        block.0 < s.blocks(),
    ensures
        s.seal_block(block).read_tidy(s, busy),
        s.seal_block(block).unsealed() <= s.unsealed(),
    decreases s.unsealed(), 0nat, 0nat,
{
    reveal(Builder::same_edges);
    reveal(Builder::same_edges_but);
    reveal(Builder::neat);
    if !s.sealed[block.0 as int] {
        let s1 = Builder {
            sealed: s.sealed.update(block.0 as int, true),
            unresolved: s.unresolved.update(block.0 as int, Seq::empty()),
            ..s
        };
        let opens = s.unresolved[block.0 as int];
        lemma_count_false_update(s.sealed, block.0 as int);
        assert(s1.inv()) by {
            assert forall|b: int, k: int|
                0 <= b < s1.unresolved.len() && 0 <= k < s1.unresolved[b].len() implies 0 <= (
            #[trigger] s1.unresolved[b][k]).index < s1.program.blocks[b].instructions.len() by {
                assert(s.unresolved[b][k].index < s.program.blocks[b].instructions.len());
            }
        }
        if !s.overflow {
            assert forall|b: int, k: int|
                0 <= b < s1.unresolved.len() && 0 <= k < s1.unresolved[b].len() implies s1.program.blocks[b].instructions[(
            #[trigger] s1.unresolved[b][k]).index] is Assignment by {
                assert(s.program.blocks[b].instructions[s.unresolved[b][k].index] is Assignment);
            }
            assert(s.same_edges(s1));
            lemma_neat_kept(s, s1, busy);
            assert forall|k: int| 0 <= k < opens.len() implies s1.program.blocks[block.0 as int].instructions[(
            #[trigger] opens[k]).index] is Assignment by {
                assert(s.program.blocks[block.0 as int].instructions[s.unresolved[block.0 as int][k].index] is Assignment);
            }
        }
        assert forall|k: int| 0 <= k < opens.len() implies 0 <= (#[trigger] opens[k]).index
            < s1.program.blocks[block.0 as int].instructions.len() by {
            assert(s.unresolved[block.0 as int][k].index < s.program.blocks[block.0 as int].instructions.len());
        }
        lemma_resolve_all_tidy(s1, busy, block, opens, 0);
        let s2 = s1.resolve_all(block, opens, 0);
        let next = s2.program.blocks[block.0 as int].next;
        assert forall|k: int| 0 <= k < next.len() implies (#[trigger] next[k]).0 < s2.blocks() by {
            assert(s2.program.blocks[block.0 as int].next[k].0 < s2.program.blocks.len());
        }
        lemma_seal_all_tidy(s2, busy, next, 0);
        let s3 = s2.seal_all(next, 0);
        assert(s1.read_tidy(s, busy));
        lemma_read_tidy(s, s1, s2, busy);
        lemma_read_tidy(s, s2, s3, busy);
    } else {
        assert(s.overflow || s.same_edges(s));
    }
}

/// Sealing a list of blocks changes no edge and no branch.
pub proof fn lemma_seal_all_tidy(s: Builder, busy: Set<BlockId>, blocks: Seq<BlockId>, from: int)
    requires
        s.tidy(busy),
        0 <= from,
        forall|k: int| 0 <= k < blocks.len() ==> (#[trigger] blocks[k]).0 < s.blocks(),
    ensures
        s.seal_all(blocks, from).read_tidy(s, busy),
        s.seal_all(blocks, from).unsealed() <= s.unsealed(),
    decreases s.unsealed(), 1nat, blocks.len() - from,
{
    reveal(Builder::same_edges);
    reveal(Builder::same_edges_but);
    if from < blocks.len() {
        lemma_seal_block_tidy(s, busy, blocks[from]);
        let s1 = s.seal_block(blocks[from]);
        lemma_seal_all_tidy(s1, busy, blocks, from + 1);
        lemma_read_tidy(s, s1, s1.seal_all(blocks, from + 1), busy);
    } else {
        assert(s.overflow || s.same_edges(s));
    }
}

/// A new block is open, and changes no other block.
pub proof fn lemma_new_block_tidy(s: Builder, busy: Set<BlockId>, sealed: bool)
    requires
        s.tidy(busy),
    ensures
        s.new_block(sealed).0.tidy(busy),
        s.overflow ==> s.new_block(sealed).0.overflow,
        s.new_block(sealed).0.blocks() == s.blocks() + 1,
        s.new_block(sealed).1.0 < s.new_block(sealed).0.blocks(),
        s.new_block(sealed).0.overflow || {
            &&& s.new_block(sealed).1.0 == s.blocks()
            &&& s.new_block(sealed).0.program.blocks[s.blocks() as int].open()
            &&& !busy.contains(s.new_block(sealed).1)
            &&& forall|b: int|
                0 <= b < s.blocks() ==> (#[trigger] s.new_block(sealed).0.program.blocks[b]) == s.program.blocks[b]
        },
{
    reveal(Builder::same_edges);
    reveal(Builder::same_edges_but);
    reveal(Builder::neat);
    let (t, id) = s.new_block(sealed);
    lemma_new_block_inv(s, sealed);
    if !t.overflow {
        assert(t.program.blocks[s.blocks() as int].instructions =~= Seq::<Step>::empty());
        assert forall|a: BlockId, b: BlockId| a.0 < t.program.blocks.len() && b.0 < t.program.blocks.len() implies (
        #[trigger] t.program.blocks[a.0 as int].next.contains(b) <==> #[trigger] t.program.blocks[b.0 as int].prev.contains(
            a,
        )) by {
            if a.0 < s.blocks() && b.0 < s.blocks() {
                assert(s.program.blocks[a.0 as int].next.contains(b) <==> s.program.blocks[b.0 as int].prev.contains(
                    a,
                ));
            } else if a.0 < s.blocks() {
                if s.program.blocks[a.0 as int].next.contains(b) {
                    let k = choose|k: int|
                        0 <= k < s.program.blocks[a.0 as int].next.len() && s.program.blocks[a.0 as int].next[k] == b;
                    assert(s.program.blocks[a.0 as int].next[k].0 < s.program.blocks.len());
                }
            } else if b.0 < s.blocks() {
                if s.program.blocks[b.0 as int].prev.contains(a) {
                    let k = choose|k: int|
                        0 <= k < s.program.blocks[b.0 as int].prev.len() && s.program.blocks[b.0 as int].prev[k] == a;
                    assert(s.program.blocks[b.0 as int].prev[k].0 < s.program.blocks.len());
                }
            }
        }
        assert forall|b: int| 0 <= b < t.blocks() implies if busy.contains(BlockId(b as usize)) {
            (#[trigger] t.program.blocks[b]).branching()
        } else {
            t.program.blocks[b].settled()
        } by {
            if b < s.blocks() {
                assert(t.program.blocks[b] == s.program.blocks[b]);
                if busy.contains(BlockId(b as usize)) {
                    assert(s.program.blocks[b].branching());
                } else {
                    assert(s.program.blocks[b].settled());
                }
            }
        }
        assert forall|b: int, k: int|
            0 <= b < t.unresolved.len() && 0 <= k < t.unresolved[b].len() implies t.program.blocks[b].instructions[(
        #[trigger] t.unresolved[b][k]).index] is Assignment by {
            assert(s.program.blocks[b].instructions[s.unresolved[b][k].index] is Assignment);
        }
    }
}

/// What the blocks are after an edge has been added.
proof fn lemma_connect_facts(s: Builder, from: BlockId, to: BlockId)
    requires
        s.inv(),
        from.0 < s.blocks(),
        to.0 < s.blocks(),
    ensures
        s.connect(from, to).inv(),
        s.connect(from, to).blocks() == s.blocks(),
        s.connect(from, to).overflow == s.overflow,
        s.connect(from, to).unresolved == s.unresolved,
        s.connect(from, to).sealed == s.sealed,
        forall|b: int|
            0 <= b < s.blocks() ==> (#[trigger] s.connect(from, to).program.blocks[b]).instructions
                == s.program.blocks[b].instructions && s.connect(from, to).program.blocks[b].next == if b == from.0 {
                s.program.blocks[b].next.push(to)
            } else {
                s.program.blocks[b].next
            } && s.connect(from, to).program.blocks[b].prev == if b == to.0 {
                s.program.blocks[b].prev.push(from)
            } else {
                s.program.blocks[b].prev
            },
        s.program.edges_paired() ==> s.connect(from, to).program.edges_paired(),
{
    reveal(Builder::same_edges);
    reveal(Builder::same_edges_but);
    let t = s.connect(from, to);
    lemma_connect_inv(s, from, to);
    if s.program.edges_paired() {
        assert forall|a: BlockId, b: BlockId| a.0 < t.program.blocks.len() && b.0 < t.program.blocks.len() implies (
        #[trigger] t.program.blocks[a.0 as int].next.contains(b) <==> #[trigger] t.program.blocks[b.0 as int].prev.contains(
            a,
        )) by {
            let sn = s.program.blocks[a.0 as int].next;
            let sp = s.program.blocks[b.0 as int].prev;
            let tn = t.program.blocks[a.0 as int].next;
            let tp = t.program.blocks[b.0 as int].prev;
            assert(sn.contains(b) <==> sp.contains(a));
            lemma_push_contains(sn, to, b);
            lemma_push_contains(sp, from, a);
        }
    }
}

/// What a list of blocks holds after one more has been added.
proof fn lemma_push_contains(s: Seq<BlockId>, x: BlockId, y: BlockId)
    ensures
        s.push(x).contains(y) <==> s.contains(y) || y == x,
{
    reveal(Builder::same_edges);
    reveal(Builder::same_edges_but);
    let t = s.push(x);
    if s.contains(y) {
        let i = choose|i: int| 0 <= i < s.len() && s[i] == y;
        assert(t[i] == y);
    }
    if y == x {
        assert(t[s.len() as int] == y);
    }
    if t.contains(y) {
        let i = choose|i: int| 0 <= i < t.len() && t[i] == y;
        if i < s.len() {
            assert(s[i] == y);
        }
    }
}

/// An edge from an open block settles the block.
pub proof fn lemma_connect_open(s: Builder, busy: Set<BlockId>, from: BlockId, to: BlockId)
    requires
        s.tidy(busy),
        from.0 < s.blocks(),
        to.0 < s.blocks(),
        s.overflow || (s.program.blocks[from.0 as int].open() && !busy.contains(from)),
    ensures
        s.connect(from, to).tidy(busy),
{
    reveal(Builder::same_edges);
    reveal(Builder::same_edges_but);
    reveal(Builder::neat);
    let t = s.connect(from, to);
    lemma_connect_facts(s, from, to);
    if !t.overflow {
        assert forall|b: int| 0 <= b < t.blocks() implies if busy.contains(BlockId(b as usize)) {
            (#[trigger] t.program.blocks[b]).branching()
        } else {
            t.program.blocks[b].settled()
        } by {
            if busy.contains(BlockId(b as usize)) {
                assert(s.program.blocks[b].branching());
            } else {
                assert(s.program.blocks[b].settled());
            }
        }
        assert forall|b: int, k: int|
            0 <= b < t.unresolved.len() && 0 <= k < t.unresolved[b].len() implies t.program.blocks[b].instructions[(
        #[trigger] t.unresolved[b][k]).index] is Assignment by {
            assert(s.program.blocks[b].instructions[s.unresolved[b][k].index] is Assignment);
        }
    }
}

/// An edge from a block in which a conditional starts makes or keeps the block busy.
pub proof fn lemma_connect_busy(s: Builder, busy: Set<BlockId>, from: BlockId, to: BlockId)
    requires
        s.tidy(busy),
        from.0 < s.blocks(),
        to.0 < s.blocks(),
        s.overflow || (branches(s.program.blocks[from.0 as int].instructions) == 0
            && s.program.blocks[from.0 as int].next.len() <= 1),
    ensures
        s.connect(from, to).tidy(busy.insert(from)),
{
    reveal(Builder::same_edges);
    reveal(Builder::same_edges_but);
    reveal(Builder::neat);
    let t = s.connect(from, to);
    let more = busy.insert(from);
    lemma_connect_facts(s, from, to);
    if !t.overflow {
        assert forall|b: int| 0 <= b < t.blocks() implies if more.contains(BlockId(b as usize)) {
            (#[trigger] t.program.blocks[b]).branching()
        } else {
            t.program.blocks[b].settled()
        } by {
            if b == from.0 {
            } else if busy.contains(BlockId(b as usize)) {
                assert(s.program.blocks[b].branching());
            } else {
                assert(s.program.blocks[b].settled());
            }
        }
        assert forall|b: int, k: int|
            0 <= b < t.unresolved.len() && 0 <= k < t.unresolved[b].len() implies t.program.blocks[b].instructions[(
        #[trigger] t.unresolved[b][k]).index] is Assignment by {
            assert(s.program.blocks[b].instructions[s.unresolved[b][k].index] is Assignment);
        }
    }
}

/// The branch between the two successors of a busy block settles the block.
pub proof fn lemma_emit_branch_tidy(
    s: Builder,
    busy: Set<BlockId>,
    block: BlockId,
    cond: Operand,
    true_block: BlockId,
    false_block: BlockId,
)
    requires
        s.tidy(busy),
        block.0 < s.blocks(),
        true_block.0 < s.blocks(),
        false_block.0 < s.blocks(),
        s.overflow || (busy.contains(block) && s.program.blocks[block.0 as int].next == seq![
            true_block,
            false_block,
        ]),
    ensures
        s.emit(block, Step::Branch { cond, true_block, false_block }).tidy(busy.remove(block)),
        s.emit(block, Step::Branch { cond, true_block, false_block }).blocks() == s.blocks(),
        s.emit(block, Step::Branch { cond, true_block, false_block }).overflow == s.overflow,
        s.same_edges_but(s.emit(block, Step::Branch { cond, true_block, false_block }), block),
        forall|b: int|
            0 <= b < s.blocks() ==> (#[trigger] s.emit(
                block,
                Step::Branch { cond, true_block, false_block },
            ).program.blocks[b]).next == s.program.blocks[b].next,
{
    reveal(Builder::same_edges);
    reveal(Builder::same_edges_but);
    reveal(Builder::neat);
    let step = Step::Branch { cond, true_block, false_block };
    let t = s.emit(block, step);
    let fewer = busy.remove(block);
    lemma_emit_inv(s, block, step);
    let old = s.program.blocks[block.0 as int].instructions;
    assert(old.push(step).drop_last() =~= old);
    if !t.overflow {
        assert(s.program.blocks[block.0 as int].branching());
        assert forall|a: BlockId, b: BlockId| a.0 < t.program.blocks.len() && b.0 < t.program.blocks.len() implies (
        #[trigger] t.program.blocks[a.0 as int].next.contains(b) <==> #[trigger] t.program.blocks[b.0 as int].prev.contains(
            a,
        )) by {
            assert(s.program.blocks[a.0 as int].next.contains(b) <==> s.program.blocks[b.0 as int].prev.contains(a));
        }
        assert forall|b: int| 0 <= b < t.blocks() implies if fewer.contains(BlockId(b as usize)) {
            (#[trigger] t.program.blocks[b]).branching()
        } else {
            t.program.blocks[b].settled()
        } by {
            if b == block.0 {
            } else if busy.contains(BlockId(b as usize)) {
                assert(s.program.blocks[b].branching());
            } else {
                assert(s.program.blocks[b].settled());
            }
        }
        assert forall|b: int, k: int|
            0 <= b < t.unresolved.len() && 0 <= k < t.unresolved[b].len() implies t.program.blocks[b].instructions[(
        #[trigger] t.unresolved[b][k]).index] is Assignment by {
            assert(s.program.blocks[b].instructions[s.unresolved[b][k].index] is Assignment);
            assert(0 <= s.unresolved[b][k].index < s.program.blocks[b].instructions.len());
        }
    }
}

/// Reading an identifier changes no edge and no branch.
pub proof fn lemma_lower_name_tidy(s: Builder, busy: Set<BlockId>, block: BlockId, name: Seq<char>)
    requires
        s.tidy(busy),
        block.0 < s.blocks(),
    ensures
        s.lower_name(block, name) matches Ok((t, operand)) ==> t.read_tidy(s, busy),
{
    reveal(Builder::same_edges);
    reveal(Builder::same_edges_but);
    if s.constant(name) is None && s.knows(name) {
        lemma_read_variable_tidy(s, busy, block, name);
    } else {
        assert(s.overflow || s.same_edges(s));
    }
}

/// Lowering an expression changes no edge and no branch.
pub proof fn lemma_lower_expr_tidy(s: Builder, busy: Set<BlockId>, block: BlockId, expr: Expr)
    requires
        s.tidy(busy),
        block.0 < s.blocks(),
    ensures
        s.lower_expr(block, expr) matches Ok((t, operand)) ==> t.read_tidy(s, busy),
    decreases expr, 0nat,
{
    reveal(Builder::same_edges);
    reveal(Builder::same_edges_but);
    match expr {
        Expr::Constant(v) => {
            assert(s.overflow || s.same_edges(s));
        },
        Expr::Identifier(ident) => {
            lemma_lower_name_tidy(s, busy, block, ident@);
        },
        Expr::BinaryOp(lhs_expr, op, rhs_expr) => {
            lemma_lower_expr_tidy(s, busy, block, *lhs_expr);
            if let Ok((s1, lhs)) = s.lower_expr(block, *lhs_expr) {
                lemma_lower_expr_tidy(s1, busy, block, *rhs_expr);
                if let Ok((s2, rhs)) = s1.lower_expr(block, *rhs_expr) {
                    lemma_add_variable_tidy(s2, busy, block, Value::BinaryOp { lhs, op, rhs });
                    lemma_read_tidy(s, s1, s2, busy);
                    lemma_read_tidy(s, s2, s2.add_variable(block, Value::BinaryOp { lhs, op, rhs }).0, busy);
                }
            }
        },
        Expr::UnaryOp(_, _) => {},
        Expr::FunctionCall(ident, args) => {
            lemma_lower_args_tidy(s, busy, block, args, 0);
            if let Ok((s1, list)) = s.lower_args(block, args, 0) {
                let value = Value::Call { name: ident@, args: list };
                lemma_add_variable_tidy(s1, busy, block, value);
                lemma_read_tidy(s, s1, s1.add_variable(block, value).0, busy);
            }
        },
        Expr::FieldExpr(d, logic) => {
            lemma_lower_name_tidy(s, busy, block, d@);
            if let Ok((s1, arg0)) = s.lower_name(block, d@) {
                lemma_lower_name_tidy(s1, busy, block, logic@);
                if let Ok((s2, arg1)) = s1.lower_name(block, logic@) {
                    let value = Value::Call { name: "load"@, args: seq![arg0, arg1] };
                    lemma_add_variable_tidy(s2, busy, block, value);
                    lemma_read_tidy(s, s1, s2, busy);
                    lemma_read_tidy(s, s2, s2.add_variable(block, value).0, busy);
                }
            }
        },
    }
}

/// Lowering the arguments of a call changes no edge and no branch.
pub proof fn lemma_lower_args_tidy(s: Builder, busy: Set<BlockId>, block: BlockId, args: Vec<Box<Expr>>, from: int)
    requires
        s.tidy(busy),
        block.0 < s.blocks(),
        0 <= from,
    ensures
        s.lower_args(block, args, from) matches Ok((t, list)) ==> t.read_tidy(s, busy),
    decreases args, args.len() - from,
{
    reveal(Builder::same_edges);
    reveal(Builder::same_edges_but);
    if from < args.len() {
        lemma_lower_expr_tidy(s, busy, block, *args[from]);
        if let Ok((s1, first)) = s.lower_expr(block, *args[from]) {
            lemma_lower_args_tidy(s1, busy, block, args, from + 1);
            if let Ok((s2, rest)) = s1.lower_args(block, args, from + 1) {
                lemma_read_tidy(s, s1, s2, busy);
            }
        }
    } else {
        assert(s.overflow || s.same_edges(s));
    }
}

/// Making an operand a value of the program changes no edge and no branch.
pub proof fn lemma_as_variable_tidy(s: Builder, busy: Set<BlockId>, block: BlockId, operand: Operand)
    requires
        s.tidy(busy),
        block.0 < s.blocks(),
    ensures
        s.as_variable(block, operand).0.read_tidy(s, busy),
{
    reveal(Builder::same_edges);
    reveal(Builder::same_edges_but);
    match operand {
        Operand::Var(id) => {
            assert(s.overflow || s.same_edges(s));
        },
        _ => {
            lemma_add_variable_tidy(s, busy, block, Value::Single(operand));
        },
    }
}

/// A state that read from a state in which a block was open leaves it
/// open, and is a state that lowering statements from that block keeps.
proof fn lemma_read_lowered(s: Builder, t: Builder, busy: Set<BlockId>, block: BlockId)
    requires
        t.read_tidy(s, busy),
        block.0 < s.blocks(),
        s.overflow || (s.program.blocks[block.0 as int].open() && !busy.contains(block)),
    ensures
        t.lowered_tidy(s, busy, block, block),
{
    reveal(Builder::same_edges);
    reveal(Builder::same_edges_but);
    if !t.overflow {
        assert(s.program.blocks[block.0 as int].next == t.program.blocks[block.0 as int].next);
    }
}

impl Builder {
    /// Whether the block `x` has in `other` the successors and branches
    /// that it has in this state.
    pub open spec fn keeps_block(self, other: Builder, x: int) -> bool {
        &&& 0 <= x < self.blocks() <= other.blocks()
        &&& self.program.blocks[x].next == other.program.blocks[x].next
        &&& branches(self.program.blocks[x].instructions) == branches(other.program.blocks[x].instructions)
        &&& targets(self.program.blocks[x].instructions) == targets(other.program.blocks[x].instructions)
    }

    /// Whether each of the first `n` blocks but `block` has in `other` the
    /// successors and branches that it has in this state.
    pub open spec fn keeps_below(self, other: Builder, n: nat, block: BlockId) -> bool {
        &&& n <= self.blocks() <= other.blocks()
        &&& forall|x: int| 0 <= x < n && x != block.0 ==> #[trigger] self.keeps_block(other, x)
    }

    /// The state of a conditional that has started in `block`: the state
    /// is tidy while `block` is busy, and `block` has no branch yet and
    /// the successors `next`.
    pub open spec fn deciding(self, busy: Set<BlockId>, block: BlockId, next: Seq<BlockId>) -> bool {
        &&& self.tidy(busy.insert(block))
        &&& block.0 < self.blocks()
        &&& self.overflow || {
            &&& !busy.contains(block)
            &&& branches(self.program.blocks[block.0 as int].instructions) == 0
            &&& self.program.blocks[block.0 as int].next == next
        }
    }
}

/// States with the same edges keep every block.
proof fn lemma_keeps_from_same(a: Builder, b: Builder, n: nat, block: BlockId)
    requires
        a.same_edges(b),
        n <= a.blocks(),
    ensures
        a.keeps_below(b, n, block),
        forall|x: int| 0 <= x < a.blocks() ==> #[trigger] a.keeps_block(b, x),
{
    reveal(Builder::same_edges);
    reveal(Builder::same_edges_but);
    assert forall|x: int| 0 <= x < a.blocks() implies #[trigger] a.keeps_block(b, x) by {
        assert(a.program.blocks[x].next == b.program.blocks[x].next);
    }
}

/// Lowering from a block keeps the blocks below it.
proof fn lemma_keeps_from_lowered(a: Builder, b: Builder, busy: Set<BlockId>, start: BlockId, next: BlockId, n: nat, block: BlockId)
    requires
        b.lowered_tidy(a, busy, start, next),
        !b.overflow,
        n <= a.blocks(),
        n <= start.0 || start == block,
    ensures
        a.keeps_below(b, n, block),
{
    reveal(Builder::same_edges);
    reveal(Builder::same_edges_but);
    assert forall|x: int| 0 <= x < n && x != block.0 implies #[trigger] a.keeps_block(b, x) by {
        assert(a.program.blocks[x].next == b.program.blocks[x].next);
    }
}

/// Lowering from a block that is open, and then from the block where that
/// ends, is lowering from the first block.
proof fn lemma_lowered_twice(
    s: Builder,
    m: Builder,
    t: Builder,
    busy: Set<BlockId>,
    start: BlockId,
    mid: BlockId,
    end: BlockId,
)
    requires
        start.0 < s.blocks(),
        m.lowered_tidy(s, busy, start, mid),
        t.lowered_tidy(m, busy, mid, end),
    ensures
        t.lowered_tidy(s, busy, start, end),
{
    reveal(Builder::same_edges);
    reveal(Builder::same_edges_but);
    if !t.overflow {
        assert forall|x: int| 0 <= x < s.blocks() && x != start.0 implies (#[trigger] s.program.blocks[x]).next
            == t.program.blocks[x].next && branches(s.program.blocks[x].instructions) == branches(
            t.program.blocks[x].instructions,
        ) && targets(s.program.blocks[x].instructions) == targets(t.program.blocks[x].instructions) by {
            assert(s.program.blocks[x].next == m.program.blocks[x].next);
            assert(x != mid.0);
            assert(m.program.blocks[x].next == t.program.blocks[x].next);
        }
    }
}

/// Where a loop starts: the block after the loop and the body are new
/// and open, and the block in which the loop starts runs into the body.
proof fn lemma_loop_enter(s: Builder, busy: Set<BlockId>, block: BlockId)
    requires
        s.tidy(busy),
        block.0 < s.blocks(),
        s.overflow || (s.program.blocks[block.0 as int].open() && !busy.contains(block)),
    ensures
        ({
            let (s1, after) = s.new_block(false);
            let (s2, start) = s1.new_block(false);
            let s3 = s2.connect(block, start);
            &&& s3.tidy(busy)
            &&& s.overflow ==> s3.overflow
            &&& s3.blocks() == s.blocks() + 2
            &&& after.0 < s3.blocks() && start.0 < s3.blocks()
            &&& s3.overflow || {
                &&& after.0 == s.blocks() && start.0 == s.blocks() + 1
                &&& s3.program.blocks[after.0 as int].open()
                &&& s3.program.blocks[start.0 as int].open()
                &&& !busy.contains(after) && !busy.contains(start)
                &&& s.keeps_below(s3, s.blocks(), block)
            }
        }),
{
    reveal(Builder::same_edges);
    reveal(Builder::same_edges_but);
    let (s1, after) = s.new_block(false);
    lemma_new_block_tidy(s, busy, false);
    let (s2, start) = s1.new_block(false);
    lemma_new_block_tidy(s1, busy, false);
    let s3 = s2.connect(block, start);
    if !s2.overflow {
        assert(s2.program.blocks[block.0 as int] == s1.program.blocks[block.0 as int]);
        assert(s1.program.blocks[block.0 as int] == s.program.blocks[block.0 as int]);
    }
    lemma_connect_open(s2, busy, block, start);
    lemma_connect_facts(s2, block, start);
    if !s3.overflow {
        assert(s2.program.blocks[after.0 as int] == s1.program.blocks[after.0 as int]);
        assert forall|x: int| 0 <= x < s.blocks() && x != block.0 implies #[trigger] s.keeps_block(s3, x) by {
            assert(s.program.blocks[x] == s1.program.blocks[x]);
            assert(s1.program.blocks[x] == s2.program.blocks[x]);
        }
    }
}

/// Where a loop ends: the end of the body runs into its start, and what
/// follows goes on in the block after the loop.
proof fn lemma_loop_leave(
    s: Builder,
    s3: Builder,
    s4: Builder,
    busy: Set<BlockId>,
    block: BlockId,
    after: BlockId,
    start: BlockId,
    end: BlockId,
)
    requires
        block.0 < s.blocks(),
        s.blocks() + 2 == s3.blocks(),
        s.overflow ==> s3.overflow,
        after.0 < s3.blocks(),
        start.0 < s3.blocks(),
        s3.overflow || {
            &&& after.0 == s.blocks() && start.0 == s.blocks() + 1
            &&& s3.program.blocks[after.0 as int].open()
            &&& !busy.contains(after)
            &&& s.keeps_below(s3, s.blocks(), block)
        },
        s4.lowered_tidy(s3, busy, start, end),
    ensures
        ({
            let s5 = s4.connect(end, start);
            let t = if s5.is_sealed(block) {
                s5.seal_block(start)
            } else {
                s5
            };
            t.lowered_tidy(s, busy, block, after)
        }),
{
    reveal(Builder::same_edges);
    reveal(Builder::same_edges_but);
    let s5 = s4.connect(end, start);
    lemma_connect_open(s4, busy, end, start);
    lemma_connect_facts(s4, end, start);
    let t = if s5.is_sealed(block) {
        s5.seal_block(start)
    } else {
        s5
    };
    if s5.is_sealed(block) {
        lemma_seal_block_tidy(s5, busy, start);
    }
    if !t.overflow {
        let n = s.blocks();
        lemma_keeps_from_lowered(s3, s4, busy, start, end, n, block);
        assert(s3.keeps_block(s4, after.0 as int)) by {
            assert(s3.program.blocks[after.0 as int].next == s4.program.blocks[after.0 as int].next);
        }
        assert forall|x: int| 0 <= x < s3.blocks() && x != end.0 implies #[trigger] s4.keeps_block(s5, x) by {}
        if s5.is_sealed(block) {
            lemma_keeps_from_same(s5, t, n, block);
        }
        assert(s4.keeps_block(s5, after.0 as int));
        assert(s5.keeps_block(t, after.0 as int));
        assert(t.program.blocks[after.0 as int].open());
        assert forall|x: int| 0 <= x < s.blocks() && x != block.0 implies (#[trigger] s.program.blocks[x]).next
            == t.program.blocks[x].next && branches(s.program.blocks[x].instructions) == branches(
            t.program.blocks[x].instructions,
        ) && targets(s.program.blocks[x].instructions) == targets(t.program.blocks[x].instructions) by {
            assert(s.keeps_block(s3, x));
            assert(s3.keeps_block(s4, x));
            assert(s4.keeps_block(s5, x));
            assert(s5.keeps_block(t, x));
        }
    }
}

/// Where a conditional starts: `block` gets a new open block as its
/// first successor.
proof fn lemma_if_enter(s: Builder, busy: Set<BlockId>, block: BlockId, sealed: bool)
    requires
        s.tidy(busy),
        block.0 < s.blocks(),
        s.overflow || (s.program.blocks[block.0 as int].open() && !busy.contains(block)),
    ensures
        ({
            let (s2, first) = s.new_block(sealed);
            let s3 = s2.connect(block, first);
            &&& s3.deciding(busy, block, seq![first])
            &&& s.overflow ==> s3.overflow
            &&& s3.blocks() == s.blocks() + 1
            &&& first.0 < s3.blocks()
            &&& s3.overflow || {
                &&& first.0 == s.blocks()
                &&& s3.program.blocks[first.0 as int].open()
                &&& !busy.insert(block).contains(first)
                &&& s.keeps_below(s3, s.blocks(), block)
            }
        }),
{
    reveal(Builder::same_edges);
    reveal(Builder::same_edges_but);
    let (s2, first) = s.new_block(sealed);
    lemma_new_block_tidy(s, busy, sealed);
    let s3 = s2.connect(block, first);
    if !s2.overflow {
        assert(s2.program.blocks[block.0 as int] == s.program.blocks[block.0 as int]);
    }
    lemma_connect_busy(s2, busy, block, first);
    lemma_connect_facts(s2, block, first);
    if !s3.overflow {
        assert(s3.program.blocks[block.0 as int].next =~= seq![first]);
        assert forall|x: int| 0 <= x < s.blocks() && x != block.0 implies #[trigger] s.keeps_block(s3, x) by {
            assert(s.program.blocks[x] == s2.program.blocks[x]);
        }
    }
}

/// Where the second branch of a conditional starts: `block` gets a new
/// open block as its second successor.
proof fn lemma_if_else(s: Builder, busy: Set<BlockId>, block: BlockId, first: BlockId, sealed: bool)
    requires
        s.deciding(busy, block, seq![first]),
    ensures
        ({
            let (s5, second) = s.new_block(sealed);
            let s6 = s5.connect(block, second);
            &&& s6.deciding(busy, block, seq![first, second])
            &&& s.overflow ==> s6.overflow
            &&& s6.blocks() == s.blocks() + 1
            &&& second.0 < s6.blocks()
            &&& s6.overflow || {
                &&& second.0 == s.blocks()
                &&& s6.program.blocks[second.0 as int].open()
                &&& !busy.insert(block).contains(second)
                &&& s.keeps_below(s6, s.blocks(), block)
            }
        }),
{
    reveal(Builder::same_edges);
    reveal(Builder::same_edges_but);
    let more = busy.insert(block);
    let (s5, second) = s.new_block(sealed);
    lemma_new_block_tidy(s, more, sealed);
    let s6 = s5.connect(block, second);
    if !s5.overflow {
        assert(s5.program.blocks[block.0 as int] == s.program.blocks[block.0 as int]);
    }
    lemma_connect_busy(s5, more, block, second);
    lemma_connect_facts(s5, block, second);
    assert(more.insert(block) =~= more);
    if !s6.overflow {
        assert(s6.program.blocks[block.0 as int].next =~= seq![first, second]);
        assert forall|x: int| 0 <= x < s.blocks() && x != block.0 implies #[trigger] s.keeps_block(s6, x) by {
            assert(s.program.blocks[x] == s5.program.blocks[x]);
        }
    }
}

/// Where a conditional ends: `block` gets its branch, and the ends of
/// the two branches run into a new open block.
proof fn lemma_if_join(
    s: Builder,
    busy: Set<BlockId>,
    block: BlockId,
    cond: Operand,
    first: BlockId,
    second: BlockId,
    first_end: BlockId,
    second_end: BlockId,
    sealed: bool,
)
    requires
        s.deciding(busy, block, seq![first, second]),
        first.0 < s.blocks(),
        second.0 < s.blocks(),
        first_end.0 < s.blocks(),
        second_end.0 < s.blocks(),
        s.overflow || {
            &&& s.program.blocks[first_end.0 as int].open()
            &&& s.program.blocks[second_end.0 as int].open()
            &&& !busy.contains(first_end) && !busy.contains(second_end)
            &&& first_end != block && second_end != block && first_end != second_end
        },
    ensures
        ({
            let s8 = s.emit(block, Step::Branch { cond, true_block: first, false_block: second });
            let (s9, join) = s8.new_block(sealed);
            let s11 = s9.connect(first_end, join).connect(second_end, join);
            &&& s11.tidy(busy)
            &&& s.overflow ==> s11.overflow
            &&& s11.blocks() == s.blocks() + 1
            &&& join.0 < s11.blocks()
            &&& s11.overflow || {
                &&& join.0 == s.blocks()
                &&& s11.program.blocks[join.0 as int].open()
                &&& !busy.contains(join)
                &&& forall|x: int|
                    0 <= x < s.blocks() && x != block.0 && x != first_end.0 && x != second_end.0
                        ==> #[trigger] s.keeps_block(s11, x)
            }
        }),
{
    reveal(Builder::same_edges);
    reveal(Builder::same_edges_but);
    let more = busy.insert(block);
    let step = Step::Branch { cond, true_block: first, false_block: second };
    lemma_emit_branch_tidy(s, more, block, cond, first, second);
    let s8 = s.emit(block, step);
    if !s.overflow {
        assert(more.remove(block) =~= busy);
    } else {
        assert(s8.tidy(busy));
    }
    let (s9, join) = s8.new_block(sealed);
    lemma_new_block_tidy(s8, busy, sealed);
    let s10 = s9.connect(first_end, join);
    if !s9.overflow {
        lemma_emit_other_blocks(s, block, step, first_end.0 as int);
        lemma_emit_other_blocks(s, block, step, second_end.0 as int);
        assert(s8.program.blocks[first_end.0 as int] == s9.program.blocks[first_end.0 as int]);
        assert(s8.program.blocks[second_end.0 as int] == s9.program.blocks[second_end.0 as int]);
    }
    lemma_connect_open(s9, busy, first_end, join);
    lemma_connect_facts(s9, first_end, join);
    let s11 = s10.connect(second_end, join);
    lemma_connect_open(s10, busy, second_end, join);
    lemma_connect_facts(s10, second_end, join);
    if !s11.overflow {
        assert forall|x: int|
            0 <= x < s.blocks() && x != block.0 && x != first_end.0 && x != second_end.0 implies #[trigger] s.keeps_block(
            s11,
            x,
        ) by {
            lemma_emit_other_blocks(s, block, step, x);
            assert(s8.program.blocks[x] == s9.program.blocks[x]);
        }
    }
}

/// A step at the end of a block changes no other block.
proof fn lemma_emit_other_blocks(s: Builder, block: BlockId, step: Step, x: int)
    requires
        block.0 < s.blocks(),
        0 <= x < s.blocks(),
        x != block.0,
    ensures
        s.emit(block, step).program.blocks[x] == s.program.blocks[x],
{
    reveal(Builder::same_edges);
    reveal(Builder::same_edges_but);
}

/// A block other than the one where lowering starts keeps its successors.
proof fn lemma_lowered_keeps(a: Builder, b: Builder, busy: Set<BlockId>, start: BlockId, next: BlockId, x: int)
    requires
        b.lowered_tidy(a, busy, start, next),
        !b.overflow,
        0 <= x < a.blocks(),
        x != start.0,
    ensures
        a.keeps_block(b, x),
{
    reveal(Builder::same_edges_but);
    assert(a.program.blocks[x].next == b.program.blocks[x].next);
}

/// Lowering nothing from an open block is lowering from it.
proof fn lemma_lowered_none(s: Builder, busy: Set<BlockId>, block: BlockId)
    requires
        s.tidy(busy),
        block.0 < s.blocks(),
        s.overflow || (s.program.blocks[block.0 as int].open() && !busy.contains(block)),
    ensures
        s.lowered_tidy(s, busy, block, block),
{
    reveal(Builder::same_edges_but);
}

/// A state that is lowered into, from blocks that each keep their
/// successors on the way, keeps the successors of the blocks.
proof fn lemma_lowered_from_kept(s: Builder, t: Builder, busy: Set<BlockId>, block: BlockId, next: BlockId)
    requires
        t.tidy(busy),
        s.overflow ==> t.overflow,
        next.0 < t.blocks(),
        s.blocks() <= t.blocks(),
        t.overflow || {
            &&& t.program.blocks[next.0 as int].open()
            &&& !busy.contains(next)
            &&& next == block || next.0 >= s.blocks()
            &&& forall|x: int| 0 <= x < s.blocks() && x != block.0 ==> #[trigger] s.keeps_block(t, x)
        },
    ensures
        t.lowered_tidy(s, busy, block, next),
{
    reveal(Builder::same_edges_but);
    if !t.overflow {
        assert forall|x: int| 0 <= x < s.blocks() && x != block.0 implies (#[trigger] s.program.blocks[x]).next
            == t.program.blocks[x].next && branches(s.program.blocks[x].instructions) == branches(
            t.program.blocks[x].instructions,
        ) && targets(s.program.blocks[x].instructions) == targets(t.program.blocks[x].instructions) by {
            assert(s.keeps_block(t, x));
        }
    }
}

/// Lowering a statement keeps the blocks hanging together.
pub proof fn lemma_lower_stmt_tidy(s: Builder, busy: Set<BlockId>, block: BlockId, stmt: Statement)
    requires
        s.tidy(busy),
        block.0 < s.blocks(),
        s.overflow || (s.program.blocks[block.0 as int].open() && !busy.contains(block)),
    ensures
        s.lower_stmt(block, stmt) matches Ok((t, next)) ==> t.lowered_tidy(s, busy, block, next),
    decreases stmt, 0nat,
{
    match stmt {
        Statement::FunctionCall { identifier, arguments } => {
            lemma_lower_args_tidy(s, busy, block, arguments, 0);
            if let Ok((s1, args)) = s.lower_args(block, arguments, 0) {
                let value = Value::Call { name: identifier@, args };
                lemma_add_variable_tidy(s1, busy, block, value);
                let t = s1.add_variable(block, value).0;
                lemma_read_tidy(s, s1, t, busy);
                lemma_read_lowered(s, t, busy, block);
            }
        },
        Statement::Definition { identifier, expression } => {
            lemma_lower_expr_tidy(s, busy, block, *expression);
            if let Ok((s1, v)) = s.lower_expr(block, *expression) {
                lemma_as_variable_tidy(s1, busy, block, v);
                let (s2, id) = s1.as_variable(block, v);
                let t = s2.assign(block, identifier@, id);
                lemma_read_tidy(s, s1, s2, busy);
                lemma_same_program(s2, t, busy);
                lemma_read_tidy(s, s2, t, busy);
                lemma_read_lowered(s, t, busy, block);
            }
        },
        Statement::Assignment { lhs, rhs } => {
            lemma_lower_expr_tidy(s, busy, block, *rhs);
            if let Ok((s1, v)) = s.lower_expr(block, *rhs) {
                lemma_as_variable_tidy(s1, busy, block, v);
                let (s2, id) = s1.as_variable(block, v);
                lemma_read_tidy(s, s1, s2, busy);
                match *lhs {
                    Expr::Identifier(ident) => {
                        let t = s2.assign(block, ident@, id);
                        lemma_same_program(s2, t, busy);
                        lemma_read_tidy(s, s2, t, busy);
                        lemma_read_lowered(s, t, busy, block);
                    },
                    Expr::FieldExpr(d, logic) => {
                        lemma_lower_name_tidy(s2, busy, block, d@);
                        if let Ok((s3, arg0)) = s2.lower_name(block, d@) {
                            lemma_lower_name_tidy(s3, busy, block, logic@);
                            if let Ok((s4, arg1)) = s3.lower_name(block, logic@) {
                                let value = Value::Call { name: "store"@, args: seq![arg0, arg1, Operand::Var(id)] };
                                lemma_add_variable_tidy(s4, busy, block, value);
                                let t = s4.add_variable(block, value).0;
                                lemma_read_tidy(s, s2, s3, busy);
                                lemma_read_tidy(s, s3, s4, busy);
                                lemma_read_tidy(s, s4, t, busy);
                                lemma_read_lowered(s, t, busy, block);
                            }
                        }
                    },
                    _ => {},
                }
            }
        },
        Statement::Constant(identifier, expression) => {
            lemma_lower_expr_tidy(s, busy, block, *expression);
            if let Ok((s1, v)) = s.lower_expr(block, *expression) {
                let t = s1.define(identifier@, v);
                lemma_same_program(s1, t, busy);
                lemma_read_tidy(s, s1, t, busy);
                lemma_read_lowered(s, t, busy, block);
            }
        },
        Statement::IfStatement(if_stmt) => {
            lemma_lower_if_tidy(s, busy, block, if_stmt);
        },
        Statement::Loop { body } => {
            let (s1, after) = s.new_block(false);
            let (s2, start) = s1.new_block(false);
            let s3 = s2.connect(block, start);
            lemma_loop_enter(s, busy, block);
            lemma_lower_stmts_tidy(s3, busy, start, *body.statement_list(), 0);
            if let Ok((s4, end)) = s3.lower_stmts(start, *body.statement_list(), 0) {
                lemma_loop_leave(s, s3, s4, busy, block, after, start, end);
            }
        },
        Statement::Yield => {
            lemma_emit_tidy(s, busy, block, Step::Yield);
            lemma_read_lowered(s, s.emit(block, Step::Yield), busy, block);
        },
        Statement::Return(expr) => {
            lemma_lower_expr_tidy(s, busy, block, *expr);
            if let Ok((s1, v)) = s.lower_expr(block, *expr) {
                lemma_emit_tidy(s1, busy, block, Step::Return(v));
                let t = s1.emit(block, Step::Return(v));
                lemma_read_tidy(s, s1, t, busy);
                lemma_read_lowered(s, t, busy, block);
            }
        },
        _ => {},
    }
}

/// A state with the program of a tidy state, and the same waiting phis,
/// is a state that read from it.
proof fn lemma_same_program(s: Builder, t: Builder, busy: Set<BlockId>)
    requires
        s.tidy(busy),
        t.program == s.program,
        t.unresolved == s.unresolved,
        t.sealed == s.sealed,
        t.overflow == s.overflow,
    ensures
        t.read_tidy(s, busy),
{
    reveal(Builder::same_edges);
    reveal(Builder::same_edges_but);
    reveal(Builder::neat);
    if !t.overflow {
        assert(s.same_edges(t));
    }
}

/// Lowering a conditional keeps the blocks hanging together.
pub proof fn lemma_lower_if_tidy(s: Builder, busy: Set<BlockId>, block: BlockId, statement: IfStatement)
    requires
        s.tidy(busy),
        block.0 < s.blocks(),
        s.overflow || (s.program.blocks[block.0 as int].open() && !busy.contains(block)),
    ensures
        s.lower_if(block, statement) matches Ok((t, next)) ==> t.lowered_tidy(s, busy, block, next),
    decreases statement, 0nat,
{
    let (condition, body) = match statement {
        IfStatement::If { condition, body } => (condition, body),
        IfStatement::IfElse { condition, body, else_body } => (condition, body),
    };
    let sealed = s.is_sealed(block);
    let more = busy.insert(block);
    let n = s.blocks();
    lemma_lower_expr_tidy(s, busy, block, *condition);
    if let Ok((s1, cond)) = s.lower_expr(block, *condition) {
        lemma_read_lowered(s, s1, busy, block);
        let (s2, first) = s1.new_block(sealed);
        let s3 = s2.connect(block, first);
        lemma_if_enter(s1, busy, block, sealed);
        lemma_lower_stmts_tidy(s3, more, first, *body.statement_list(), 0);
        if let Ok((s4, first_end)) = s3.lower_stmts(first, *body.statement_list(), 0) {
            if !s4.overflow {
                lemma_lowered_keeps(s3, s4, more, first, first_end, block.0 as int);
            }
            assert(s4.deciding(busy, block, seq![first]));
            let (s5, second) = s4.new_block(sealed);
            let s6 = s5.connect(block, second);
            lemma_if_else(s4, busy, block, first, sealed);
            let lowered = match statement {
                IfStatement::If { condition, body } => Ok((s6, second)),
                IfStatement::IfElse { condition, body, else_body } => {
                    lemma_lower_stmts_tidy(s6, more, second, *else_body.statement_list(), 0);
                    s6.lower_stmts(second, *else_body.statement_list(), 0)
                },
            };
            if let Ok((s7, second_end)) = lowered {
                if statement is If {
                    lemma_lowered_none(s6, more, second);
                }
                if !s7.overflow {
                    lemma_lowered_keeps(s6, s7, more, second, second_end, block.0 as int);
                    assert(s4.keeps_block(s6, first_end.0 as int));
                    lemma_lowered_keeps(s6, s7, more, second, second_end, first_end.0 as int);
                }
                assert(s7.deciding(busy, block, seq![first, second]));
                lemma_if_join(s7, busy, block, cond, first, second, first_end, second_end, sealed);
                let s8 = s7.emit(block, Step::Branch { cond, true_block: first, false_block: second });
                let (s9, join) = s8.new_block(sealed);
                let s11 = s9.connect(first_end, join).connect(second_end, join);
                if !s11.overflow {
                    assert forall|x: int| 0 <= x < s.blocks() && x != block.0 implies #[trigger] s.keeps_block(
                        s11,
                        x,
                    ) by {
                        lemma_lowered_keeps(s, s1, busy, block, block, x);
                        assert(s1.keeps_block(s3, x));
                        lemma_lowered_keeps(s3, s4, more, first, first_end, x);
                        assert(s4.keeps_block(s6, x));
                        lemma_lowered_keeps(s6, s7, more, second, second_end, x);
                        assert(s7.keeps_block(s11, x));
                    }
                }
                lemma_lowered_from_kept(s, s11, busy, block, join);
            }
        }
    }
}

/// Lowering statements keeps the blocks hanging together.
pub proof fn lemma_lower_stmts_tidy(s: Builder, busy: Set<BlockId>, block: BlockId, stmts: Vec<Statement>, from: int)
    requires
        s.tidy(busy),
        block.0 < s.blocks(),
        s.overflow || (s.program.blocks[block.0 as int].open() && !busy.contains(block)),
        0 <= from,
    ensures
        s.lower_stmts(block, stmts, from) matches Ok((t, next)) ==> t.lowered_tidy(s, busy, block, next),
    decreases stmts, stmts.len() - from,
{
    if from < stmts.len() {
        lemma_lower_stmt_tidy(s, busy, block, stmts[from]);
        if let Ok((s1, mid)) = s.lower_stmt(block, stmts[from]) {
            lemma_lower_stmts_tidy(s1, busy, mid, stmts, from + 1);
            if let Ok((s2, end)) = s1.lower_stmts(mid, stmts, from + 1) {
                lemma_lowered_twice(s, s1, s2, busy, block, mid, end);
            }
        }
    } else {
        lemma_lowered_none(s, busy, block);
    }
}

/// In every program that is built, every edge is noted at both its ends,
/// and every block has at most one successor and no branch, or two
/// successors and one branch, which chooses between them.
pub proof fn lemma_build_settled(stmts: Vec<Statement>)
    ensures
        Builder::build(stmts) matches Ok(p) ==> p.edges_paired() && p.settled(),
{
    reveal(Builder::same_edges);
    reveal(Builder::same_edges_but);
    reveal(Builder::neat);
    let none = Set::<BlockId>::empty();
    let s0 = Builder::empty();
    assert(s0.tidy(none));
    let (s1, entry) = s0.new_block(true);
    lemma_new_block_tidy(s0, none, true);
    let s2 = s1.init();
    lemma_same_program(s1, s2, none);
    lemma_lower_stmts_tidy(s2, none, entry, stmts, 0);
}

} // verus!
