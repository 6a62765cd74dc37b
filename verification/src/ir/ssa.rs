//! Why every program that is built is in static single assignment form.
//!
//! Values are numbered from 1 in the order in which they are taken. While
//! the program is built, every number taken so far belongs to a value that
//! is assigned by exactly one instruction, or to one whose assignment is
//! still to come; when the construction is over, none is still to come.
use vstd::prelude::*;
use crate::ast::{Expr, IfStatement, Statement};
use crate::ir::model::{
    Builder,
    Named,
    Open,
    assigned,
    find_const,
    lemma_count_false_update,
    lemma_find_def,
    lemma_missing_assigned,
    lookup,
    without_var,
};
use crate::ir::model::{lemma_connect_inv, lemma_emit_inv, lemma_new_block_inv, lemma_replace_inv};
use crate::ir::types::{BlockId, Operand, Step, Value, VarId};

verus! {

/// Whether `v` is one of the values numbered from 1 up to `next`.
pub open spec fn taken(next: usize, v: VarId) -> bool {
    1 <= v.0 < next
}

/// Whether the value that an operand reads, if it reads one, is one of the
/// values numbered from 1 up to `next`.
pub open spec fn operand_taken(next: usize, operand: Operand) -> bool {
    match operand {
        Operand::Var(v) => taken(next, v),
        _ => true,
    }
}

impl Builder {
    /// Whether `v` is the number of a value that has been taken.
    pub open spec fn valid(self, v: VarId) -> bool {
        taken(self.next_var, v)
    }

    /// Whether the value that an operand reads, if it reads one, has been taken.
    pub open spec fn valid_operand(self, operand: Operand) -> bool {
        operand_taken(self.next_var, operand)
    }

    /// Whether all values of a list have been taken.
    pub open spec fn valid_all(self, all: Seq<VarId>) -> bool {
        forall|k: int| 0 <= k < all.len() ==> taken(self.next_var, #[trigger] all[k])
    }

    /// Whether the values that the operands of a list read have been taken.
    pub open spec fn valid_operands(self, all: Seq<Operand>) -> bool {
        forall|k: int| 0 <= k < all.len() ==> operand_taken(self.next_var, #[trigger] all[k])
    }

    /// Whether the values that a step reads have been taken.
    pub open spec fn valid_step(self, step: Step) -> bool {
        forall|v: VarId| #[trigger] step.uses().contains(v) ==> taken(self.next_var, v)
    }

    /// The state is in order for static single assignment, with the values
    /// of `pending` still to be assigned: no value is assigned twice; the
    /// values taken are those assigned and those pending; and whatever an
    /// instruction reads, a name or a constant stands for, or a waiting phi
    /// assigns, has been taken. Nothing is claimed once the numbers for
    /// values have run out.
    #[verifier::opaque]
    pub open spec fn ssa(self, pending: Set<VarId>) -> bool {
        self.overflow || self.ordered(pending)
    }

    /// What `ssa` says of a state in which the numbers have not run out.
    pub open spec fn ordered(self, pending: Set<VarId>) -> bool {
        &&& self.next_var >= 1
        &&& self.program.single_assignment()
        &&& forall|v: VarId| #[trigger]
            self.program.defined(v) ==> taken(self.next_var, v) && !pending.contains(v)
        &&& forall|v: VarId| #[trigger]
            taken(self.next_var, v) ==> self.program.defined(v) || pending.contains(v)
        &&& forall|v: VarId| #[trigger] pending.contains(v) ==> taken(self.next_var, v)
        &&& forall|b: int, i: int, v: VarId| #[trigger] self.program.reads(b, i, v) ==> taken(self.next_var, v)
        &&& self.lists_ordered()
    }

    /// What the names and the constants stand for has been taken, and every
    /// waiting phi is assigned at its place.
    pub open spec fn lists_ordered(self) -> bool {
        &&& forall|k: int| 0 <= k < self.defs.len() ==> taken(self.next_var, (#[trigger] self.defs[k]).var)
        &&& forall|k: int|
            0 <= k < self.consts.len() ==> operand_taken(self.next_var, (#[trigger] self.consts[k]).value)
        &&& forall|b: int, k: int|
            0 <= b < self.unresolved.len() && 0 <= k < self.unresolved[b].len() ==> self.program.assigns(
                b,
                (#[trigger] self.unresolved[b][k]).index,
                self.unresolved[b][k].var,
            )
    }

    /// Whether `other` has every assignment of this state at its place.
    pub open spec fn kept(self, other: Builder) -> bool {
        &&& self.next_var <= other.next_var
        &&& self.overflow ==> other.overflow
        &&& other.overflow || forall|b: int, i: int, v: VarId| #[trigger]
            self.program.assigns(b, i, v) ==> other.program.assigns(b, i, v)
    }
}

/// What the instructions of a program are after one was put at the end of a block.
pub proof fn lemma_emit_facts(s: Builder, block: BlockId, step: Step)
    requires
        block.0 < s.blocks(),
    ensures
        forall|b: int, i: int| #[trigger]
            s.emit(block, step).program.has(b, i) <==> s.program.has(b, i) || (b == block.0 && i
                == s.program.blocks[block.0 as int].instructions.len()),
        forall|b: int, i: int| #[trigger]
            s.program.has(b, i) ==> s.emit(block, step).program.at(b, i) == s.program.at(b, i),
        s.emit(block, step).program.at(
            block.0 as int,
            s.program.blocks[block.0 as int].instructions.len() as int,
        ) == step,
{
}

/// What the instructions of a program are after one was replaced.
pub proof fn lemma_replace_facts(s: Builder, block: BlockId, index: int, step: Step)
    requires
        block.0 < s.blocks(),
        0 <= index < s.program.blocks[block.0 as int].instructions.len(),
    ensures
        forall|b: int, i: int| #[trigger] s.replace(block, index, step).program.has(b, i) <==> s.program.has(b, i),
        forall|b: int, i: int| #[trigger]
            s.program.has(b, i) && !(b == block.0 && i == index) ==> s.replace(block, index, step).program.at(
                b,
                i,
            ) == s.program.at(b, i),
        s.replace(block, index, step).program.at(block.0 as int, index) == step,
{
}

/// A state with the same program and the same count of values is in
/// order if the other is and its own lists are.
pub proof fn lemma_same_program(s: Builder, t: Builder, pending: Set<VarId>)
    requires
        s.ssa(pending),
        t.program == s.program,
        t.next_var == s.next_var,
        t.overflow == s.overflow,
        t.overflow || t.lists_ordered(),
    ensures
        t.ssa(pending),
        s.kept(t),
{
    reveal(Builder::ssa);
}

/// A state with the same instructions at the same places, and the same
/// names, constants and count of values, is in order if the other is and
/// its waiting phis are assigned at their places.
pub proof fn lemma_same_steps(s: Builder, t: Builder, pending: Set<VarId>)
    requires
        s.ssa(pending),
        forall|b: int, i: int| #[trigger] t.program.has(b, i) <==> s.program.has(b, i),
        forall|b: int, i: int| #[trigger] s.program.has(b, i) ==> t.program.at(b, i) == s.program.at(b, i),
        t.defs == s.defs,
        t.consts == s.consts,
        t.next_var == s.next_var,
        t.overflow == s.overflow,
        t.overflow || forall|b: int, k: int|
            0 <= b < t.unresolved.len() && 0 <= k < t.unresolved[b].len() ==> s.program.assigns(
                b,
                (#[trigger] t.unresolved[b][k]).index,
                t.unresolved[b][k].var,
            ),
    ensures
        t.ssa(pending),
        s.kept(t),
{
    reveal(Builder::ssa);
    assert forall|b: int, i: int, v: VarId| #[trigger] t.program.assigns(b, i, v) <==> s.program.assigns(
        b,
        i,
        v,
    ) by {
        if t.program.has(b, i) {
            assert(s.program.has(b, i));
        }
    }
    if !t.overflow {
        assert forall|v: VarId| #[trigger] t.program.defined(v) implies taken(t.next_var, v) && !pending.contains(
            v,
        ) by {
            let (b, i) = choose|b: int, i: int| t.program.assigns(b, i, v);
            assert(s.program.assigns(b, i, v));
            assert(s.program.defined(v));
        }
        assert forall|v: VarId| #[trigger] taken(t.next_var, v) implies t.program.defined(v) || pending.contains(
            v,
        ) by {
            if s.program.defined(v) {
                let (b, i) = choose|b: int, i: int| s.program.assigns(b, i, v);
                assert(t.program.assigns(b, i, v));
            }
        }
        assert forall|b: int, i: int, v: VarId| #[trigger] t.program.reads(b, i, v) implies taken(
            t.next_var,
            v,
        ) by {
            assert(s.program.has(b, i));
            assert(s.program.reads(b, i, v));
        }
        assert forall|b1: int, i1: int, b2: int, i2: int, v: VarId|
            #![trigger t.program.assigns(b1, i1, v), t.program.assigns(b2, i2, v)]
            t.program.assigns(b1, i1, v) && t.program.assigns(b2, i2, v) implies b1 == b2 && i1 == i2 by {
            assert(s.program.assigns(b1, i1, v) && s.program.assigns(b2, i2, v));
        }
        assert forall|b: int, k: int|
            0 <= b < t.unresolved.len() && 0 <= k < t.unresolved[b].len() implies t.program.assigns(
            b,
            (#[trigger] t.unresolved[b][k]).index,
            t.unresolved[b][k].var,
        ) by {
            assert(s.program.assigns(b, t.unresolved[b][k].index, t.unresolved[b][k].var));
        }
    }
}

/// Taking a number makes its value pending.
pub proof fn lemma_fresh(s: Builder, pending: Set<VarId>)
    requires
        s.ssa(pending),
    ensures
        s.fresh().0.ssa(pending.insert(s.fresh().1)),
        s.kept(s.fresh().0),
        s.fresh().0.program == s.program,
        s.fresh().0.overflow || (s.fresh().0.valid(s.fresh().1) && !s.valid(s.fresh().1) && !pending.contains(
            s.fresh().1,
        )),
{
    reveal(Builder::ssa);
    let (t, id) = s.fresh();
    if !t.overflow {
        assert forall|v: VarId| #[trigger] t.program.defined(v) implies taken(t.next_var, v) && !pending.insert(
            id,
        ).contains(v) by {
            assert(taken(s.next_var, v));
        }
        assert forall|v: VarId| #[trigger] taken(t.next_var, v) implies t.program.defined(v) || pending.insert(
            id,
        ).contains(v) by {
            if v != id {
                assert(taken(s.next_var, v));
            }
        }
        assert forall|v: VarId| #[trigger] pending.insert(id).contains(v) implies taken(t.next_var, v) by {
            if v != id {
                assert(taken(s.next_var, v));
            }
        }
        assert forall|b: int, i: int, v: VarId| #[trigger] t.program.reads(b, i, v) implies taken(
            t.next_var,
            v,
        ) by {
            assert(taken(s.next_var, v));
        }
        assert forall|k: int| 0 <= k < t.defs.len() implies taken(t.next_var, (#[trigger] t.defs[k]).var) by {
            assert(taken(s.next_var, s.defs[k].var));
        }
        assert forall|k: int| 0 <= k < t.consts.len() implies operand_taken(
            t.next_var,
            (#[trigger] t.consts[k]).value,
        ) by {
            assert(operand_taken(s.next_var, s.consts[k].value));
        }
        if pending.contains(id) {
            assert(taken(s.next_var, id));
        }
    }
}

/// Assigning a pending value at the end of a block, from values that have
/// been taken, makes it assigned.
pub proof fn lemma_emit_assignment(s: Builder, pending: Set<VarId>, block: BlockId, id: VarId, value: Value)
    requires
        s.ssa(pending),
        block.0 < s.blocks(),
        s.overflow || pending.contains(id),
        s.overflow || s.valid_step(Step::Assignment { id, value }),
    ensures
        s.emit(block, Step::Assignment { id, value }).ssa(pending.remove(id)),
        s.kept(s.emit(block, Step::Assignment { id, value })),
        s.emit(block, Step::Assignment { id, value }).program.assigns(
            block.0 as int,
            s.program.blocks[block.0 as int].instructions.len() as int,
            id,
        ),
{
    reveal(Builder::ssa);
    let step = Step::Assignment { id, value };
    let t = s.emit(block, step);
    let n = s.program.blocks[block.0 as int].instructions.len() as int;
    lemma_emit_facts(s, block, step);
    assert forall|b: int, i: int, v: VarId| #[trigger] s.program.assigns(b, i, v) implies t.program.assigns(
        b,
        i,
        v,
    ) by {
        assert(t.program.has(b, i));
    }
    assert(t.program.has(block.0 as int, n));
    if !t.overflow {
        assert forall|v: VarId| #[trigger] t.program.defined(v) implies taken(t.next_var, v) && !pending.remove(
            id,
        ).contains(v) by {
            let (b, i) = choose|b: int, i: int| t.program.assigns(b, i, v);
            if s.program.has(b, i) {
                assert(s.program.assigns(b, i, v));
                assert(s.program.defined(v));
            } else {
                assert(v == id);
            }
        }
        assert forall|v: VarId| #[trigger] taken(t.next_var, v) implies t.program.defined(v) || pending.remove(
            id,
        ).contains(v) by {
            if v == id {
                assert(t.program.assigns(block.0 as int, n, v));
            } else if s.program.defined(v) {
                let (b, i) = choose|b: int, i: int| s.program.assigns(b, i, v);
                assert(t.program.assigns(b, i, v));
            }
        }
        assert forall|b: int, i: int, v: VarId| #[trigger] t.program.reads(b, i, v) implies taken(
            t.next_var,
            v,
        ) by {
            if s.program.has(b, i) {
                assert(s.program.reads(b, i, v));
            } else {
                assert(step.uses().contains(v));
            }
        }
        assert forall|b1: int, i1: int, b2: int, i2: int, v: VarId|
            #![trigger t.program.assigns(b1, i1, v), t.program.assigns(b2, i2, v)]
            t.program.assigns(b1, i1, v) && t.program.assigns(b2, i2, v) implies b1 == b2 && i1 == i2 by {
            if s.program.has(b1, i1) && s.program.has(b2, i2) {
                assert(s.program.assigns(b1, i1, v) && s.program.assigns(b2, i2, v));
            } else if s.program.has(b1, i1) {
                assert(s.program.assigns(b1, i1, v));
                assert(s.program.defined(v));
            } else if s.program.has(b2, i2) {
                assert(s.program.assigns(b2, i2, v));
                assert(s.program.defined(v));
            }
        }
        assert forall|b: int, k: int|
            0 <= b < t.unresolved.len() && 0 <= k < t.unresolved[b].len() implies t.program.assigns(
            b,
            (#[trigger] t.unresolved[b][k]).index,
            t.unresolved[b][k].var,
        ) by {
            assert(s.program.assigns(b, s.unresolved[b][k].index, s.unresolved[b][k].var));
        }
    }
}

/// An instruction that assigns nothing, and reads only values that have
/// been taken, can be put at the end of a block.
pub proof fn lemma_emit_other(s: Builder, pending: Set<VarId>, block: BlockId, step: Step)
    requires
        s.ssa(pending),
        block.0 < s.blocks(),
        step.defines() is None,
        s.overflow || s.valid_step(step),
    ensures
        s.emit(block, step).ssa(pending),
        s.kept(s.emit(block, step)),
{
    reveal(Builder::ssa);
    let t = s.emit(block, step);
    lemma_emit_facts(s, block, step);
    assert forall|b: int, i: int, v: VarId| #[trigger] s.program.assigns(b, i, v) implies t.program.assigns(
        b,
        i,
        v,
    ) by {
        assert(t.program.has(b, i));
    }
    if !t.overflow {
        assert forall|b: int, i: int, v: VarId| #[trigger] t.program.assigns(b, i, v) implies s.program.assigns(
            b,
            i,
            v,
        ) by {
            if !s.program.has(b, i) {
                assert(t.program.at(b, i) == step);
            }
        }
        assert forall|v: VarId| #[trigger] t.program.defined(v) implies taken(t.next_var, v) && !pending.contains(
            v,
        ) by {
            let (b, i) = choose|b: int, i: int| t.program.assigns(b, i, v);
            assert(s.program.assigns(b, i, v));
            assert(s.program.defined(v));
        }
        assert forall|v: VarId| #[trigger] taken(t.next_var, v) implies t.program.defined(v) || pending.contains(
            v,
        ) by {
            if s.program.defined(v) {
                let (b, i) = choose|b: int, i: int| s.program.assigns(b, i, v);
                assert(t.program.assigns(b, i, v));
            }
        }
        assert forall|b: int, i: int, v: VarId| #[trigger] t.program.reads(b, i, v) implies taken(
            t.next_var,
            v,
        ) by {
            if s.program.has(b, i) {
                assert(s.program.reads(b, i, v));
            } else {
                assert(step.uses().contains(v));
            }
        }
        assert forall|b1: int, i1: int, b2: int, i2: int, v: VarId|
            #![trigger t.program.assigns(b1, i1, v), t.program.assigns(b2, i2, v)]
            t.program.assigns(b1, i1, v) && t.program.assigns(b2, i2, v) implies b1 == b2 && i1 == i2 by {
            assert(s.program.assigns(b1, i1, v) && s.program.assigns(b2, i2, v));
        }
        assert forall|b: int, k: int|
            0 <= b < t.unresolved.len() && 0 <= k < t.unresolved[b].len() implies t.program.assigns(
            b,
            (#[trigger] t.unresolved[b][k]).index,
            t.unresolved[b][k].var,
        ) by {
            assert(s.program.assigns(b, s.unresolved[b][k].index, s.unresolved[b][k].var));
        }
    }
}

/// The assignment of a value can be replaced by another assignment of
/// the same value that reads only values that have been taken.
pub proof fn lemma_replace(s: Builder, pending: Set<VarId>, block: BlockId, index: int, id: VarId, value: Value)
    requires
        s.ssa(pending),
        block.0 < s.blocks(),
        0 <= index < s.program.blocks[block.0 as int].instructions.len(),
        s.overflow || s.program.assigns(block.0 as int, index, id),
        s.overflow || s.valid_step(Step::Assignment { id, value }),
    ensures
        s.replace(block, index, Step::Assignment { id, value }).ssa(pending),
        s.kept(s.replace(block, index, Step::Assignment { id, value })),
{
    reveal(Builder::ssa);
    let step = Step::Assignment { id, value };
    let t = s.replace(block, index, step);
    lemma_replace_facts(s, block, index, step);
    if !t.overflow {
        assert forall|b: int, i: int, v: VarId| #[trigger]
            t.program.assigns(b, i, v) <==> s.program.assigns(b, i, v) by {
            if s.program.has(b, i) {
                assert(t.program.has(b, i));
            }
        }
        assert forall|v: VarId| #[trigger] t.program.defined(v) implies taken(t.next_var, v) && !pending.contains(
            v,
        ) by {
            let (b, i) = choose|b: int, i: int| t.program.assigns(b, i, v);
            assert(s.program.assigns(b, i, v));
            assert(s.program.defined(v));
        }
        assert forall|v: VarId| #[trigger] taken(t.next_var, v) implies t.program.defined(v) || pending.contains(
            v,
        ) by {
            if s.program.defined(v) {
                let (b, i) = choose|b: int, i: int| s.program.assigns(b, i, v);
                assert(t.program.assigns(b, i, v));
            }
        }
        assert forall|b: int, i: int, v: VarId| #[trigger] t.program.reads(b, i, v) implies taken(
            t.next_var,
            v,
        ) by {
            if b == block.0 && i == index {
                assert(step.uses().contains(v));
            } else {
                assert(s.program.reads(b, i, v));
            }
        }
        assert forall|b1: int, i1: int, b2: int, i2: int, v: VarId|
            #![trigger t.program.assigns(b1, i1, v), t.program.assigns(b2, i2, v)]
            t.program.assigns(b1, i1, v) && t.program.assigns(b2, i2, v) implies b1 == b2 && i1 == i2 by {
            assert(s.program.assigns(b1, i1, v) && s.program.assigns(b2, i2, v));
        }
        assert forall|b: int, k: int|
            0 <= b < t.unresolved.len() && 0 <= k < t.unresolved[b].len() implies t.program.assigns(
            b,
            (#[trigger] t.unresolved[b][k]).index,
            t.unresolved[b][k].var,
        ) by {
            assert(s.program.assigns(b, s.unresolved[b][k].index, s.unresolved[b][k].var));
        }
    }
}

/// A name can be given a value that has been taken.
pub proof fn lemma_assign(s: Builder, pending: Set<VarId>, block: BlockId, name: Seq<char>, v: VarId)
    requires
        s.ssa(pending),
        s.overflow || s.valid(v),
    ensures
        s.assign(block, name, v).ssa(pending),
        s.kept(s.assign(block, name, v)),
{
    let t = s.assign(block, name, v);
    lemma_find_def(s.defs, name, block, 0);
    if !t.overflow {
        reveal(Builder::ssa);
        assert forall|k: int| 0 <= k < t.defs.len() implies taken(t.next_var, (#[trigger] t.defs[k]).var) by {
            if k < s.defs.len() && t.defs[k] == s.defs[k] {
                assert(taken(s.next_var, s.defs[k].var));
            }
        }
    }
    lemma_same_program(s, t, pending);
}

/// A constant can stand for an operand that reads a value that has been taken.
pub proof fn lemma_define(s: Builder, pending: Set<VarId>, name: Seq<char>, value: Operand)
    requires
        s.ssa(pending),
        s.overflow || s.valid_operand(value),
    ensures
        s.define(name, value).ssa(pending),
        s.kept(s.define(name, value)),
{
    let t = s.define(name, value);
    lemma_find_const(s.consts, name, 0);
    if !t.overflow {
        reveal(Builder::ssa);
        assert forall|k: int| 0 <= k < t.consts.len() implies operand_taken(
            t.next_var,
            (#[trigger] t.consts[k]).value,
        ) by {
            if k < s.consts.len() && t.consts[k] == s.consts[k] {
                assert(operand_taken(s.next_var, s.consts[k].value));
            }
        }
    }
    lemma_same_program(s, t, pending);
}

/// What `find_const` finds is a place in the list.
pub proof fn lemma_find_const(consts: Seq<Named>, name: Seq<char>, from: int)
    requires
        0 <= from,
    ensures
        find_const(consts, name, from) matches Some(k) ==> from <= k < consts.len(),
    decreases consts.len() - from,
{
    if from < consts.len() && consts[from].name != name {
        lemma_find_const(consts, name, from + 1);
    }
}

/// The constants that stand for the names of devices and attributes read no value.
pub proof fn lemma_init(s: Builder, pending: Set<VarId>)
    requires
        s.ssa(pending),
    ensures
        s.init().ssa(pending),
        s.kept(s.init()),
{
    let t = s.init();
    if !t.overflow {
        reveal(Builder::ssa);
        assert forall|k: int| 0 <= k < t.consts.len() implies operand_taken(
            t.next_var,
            (#[trigger] t.consts[k]).value,
        ) by {}
    }
    lemma_same_program(s, t, pending);
}

/// A new block changes no instruction.
pub proof fn lemma_new_block(s: Builder, pending: Set<VarId>, sealed: bool)
    requires
        s.ssa(pending),
        s.unresolved.len() == s.blocks(),
    ensures
        s.new_block(sealed).0.ssa(pending),
        s.kept(s.new_block(sealed).0),
{
    let t = s.new_block(sealed).0;
    assert forall|b: int, i: int| #[trigger] t.program.has(b, i) <==> s.program.has(b, i) by {}
    if !t.overflow {
        reveal(Builder::ssa);
        assert forall|b: int, k: int|
            0 <= b < t.unresolved.len() && 0 <= k < t.unresolved[b].len() implies s.program.assigns(
            b,
            (#[trigger] t.unresolved[b][k]).index,
            t.unresolved[b][k].var,
        ) by {
            assert(s.program.assigns(b, s.unresolved[b][k].index, s.unresolved[b][k].var));
        }
        lemma_same_steps(s, t, pending);
    } else {
        lemma_ssa_overflow(t, pending);
    }
}

/// An edge between two blocks changes no instruction.
pub proof fn lemma_connect(s: Builder, pending: Set<VarId>, from: BlockId, to: BlockId)
    requires
        s.ssa(pending),
        from.0 < s.blocks(),
        to.0 < s.blocks(),
    ensures
        s.connect(from, to).ssa(pending),
        s.kept(s.connect(from, to)),
{
    let t = s.connect(from, to);
    assert forall|b: int, i: int| #[trigger] t.program.has(b, i) <==> s.program.has(b, i) by {}
    if !t.overflow {
        reveal(Builder::ssa);
        assert forall|b: int, k: int|
            0 <= b < t.unresolved.len() && 0 <= k < t.unresolved[b].len() implies s.program.assigns(
            b,
            (#[trigger] t.unresolved[b][k]).index,
            t.unresolved[b][k].var,
        ) by {
            assert(s.program.assigns(b, s.unresolved[b][k].index, s.unresolved[b][k].var));
        }
    }
    lemma_same_steps(s, t, pending);
}

/// A phi that is assigned in its block can be noted as waiting.
pub proof fn lemma_defer(s: Builder, pending: Set<VarId>, block: BlockId, open: Open)
    requires
        s.ssa(pending),
        block.0 < s.unresolved.len(),
        s.overflow || s.program.assigns(block.0 as int, open.index, open.var),
    ensures
        s.defer(block, open).ssa(pending),
        s.kept(s.defer(block, open)),
{
    let t = s.defer(block, open);
    if !t.overflow {
        reveal(Builder::ssa);
        assert forall|b: int, k: int|
            0 <= b < t.unresolved.len() && 0 <= k < t.unresolved[b].len() implies t.program.assigns(
            b,
            (#[trigger] t.unresolved[b][k]).index,
            t.unresolved[b][k].var,
        ) by {
            if b == block.0 && k == s.unresolved[b].len() {
            } else {
                assert(s.program.assigns(b, s.unresolved[b][k].index, s.unresolved[b][k].var));
            }
        }
    }
    lemma_same_program(s, t, pending);
}

/// What an order of the state tells about its parts.
pub proof fn lemma_ssa_parts(s: Builder, pending: Set<VarId>)
    requires
        s.ssa(pending),
        !s.overflow,
    ensures
        s.ordered(pending),
{
    reveal(Builder::ssa);
}

/// Once the numbers have run out, every state is in order.
pub proof fn lemma_ssa_overflow(s: Builder, pending: Set<VarId>)
    requires
        s.overflow,
    ensures
        s.ssa(pending),
{
    reveal(Builder::ssa);
}

impl Builder {
    /// What every step of the construction keeps: the state stays in
    /// order, with no fewer blocks and values, and every assignment at
    /// its place.
    pub open spec fn follows(self, from: Builder, pending: Set<VarId>) -> bool {
        &&& self.inv()
        &&& self.ssa(pending)
        &&& from.kept(self)
        &&& from.blocks() <= self.blocks()
    }

    /// What reading a name keeps besides: the blocks with their edges, and
    /// what is sealed.
    pub open spec fn follows_reading(self, from: Builder, pending: Set<VarId>) -> bool {
        &&& self.follows(from, pending)
        &&& from.grown(self)
        &&& self.sealed == from.sealed
    }
}

/// A chain of states that each have every assignment of the one before.
pub proof fn lemma_kept_trans(a: Builder, b: Builder, c: Builder)
    requires
        a.kept(b),
        b.kept(c),
    ensures
        a.kept(c),
{
    if !c.overflow {
        assert forall|x: int, i: int, v: VarId| #[trigger] a.program.assigns(x, i, v) implies c.program.assigns(
            x,
            i,
            v,
        ) by {
            assert(b.program.assigns(x, i, v));
        }
    }
}

/// A chain of states that each have the blocks of the one before.
pub proof fn lemma_grown_trans(a: Builder, b: Builder, c: Builder)
    requires
        a.grown(b),
        b.grown(c),
    ensures
        a.grown(c),
{
    assert forall|x: int| 0 <= x < a.blocks() implies (#[trigger] a.program.blocks[x]).prev
        == c.program.blocks[x].prev && a.program.blocks[x].next == c.program.blocks[x].next
        && a.program.blocks[x].instructions.len() <= c.program.blocks[x].instructions.len() by {
        assert(a.program.blocks[x].prev == b.program.blocks[x].prev);
        assert(b.program.blocks[x].prev == c.program.blocks[x].prev);
    }
}

/// What is left of a list of values was in it.
pub proof fn lemma_without_var(all: Seq<VarId>, id: VarId, next: usize)
    requires
        forall|k: int| 0 <= k < all.len() ==> taken(next, #[trigger] all[k]),
    ensures
        forall|k: int| 0 <= k < without_var(all, id).len() ==> taken(next, #[trigger] without_var(all, id)[k]),
    decreases all.len(),
{
    if all.len() > 0 {
        let head = all.drop_last();
        assert forall|k: int| 0 <= k < head.len() implies taken(next, #[trigger] head[k]) by {
            assert(head[k] == all[k]);
        }
        lemma_without_var(head, id, next);
        assert(taken(next, all[all.len() - 1]));
        let left = without_var(all, id);
        let before = without_var(head, id);
        assert forall|k: int| 0 <= k < left.len() implies taken(next, #[trigger] left[k]) by {
            if k < before.len() {
                assert(left[k] == before[k]);
                assert(taken(next, before[k]));
            }
        }
    }
}

/// A new value can be assigned at the end of a block from values that
/// have been taken.
pub proof fn lemma_add_variable(s: Builder, block: BlockId, value: Value)
    requires
        s.inv(),
        s.ssa(Set::empty()),
        block.0 < s.blocks(),
        s.overflow || forall|v: VarId| #[trigger] value.uses().contains(v) ==> taken(s.next_var, v),
    ensures
        s.add_variable(block, value).0.follows_reading(s, Set::empty()),
        s.add_variable(block, value).0.overflow || s.add_variable(block, value).0.valid(
            s.add_variable(block, value).1,
        ),
        s.add_variable(block, value).0.program.assigns(
            block.0 as int,
            s.program.blocks[block.0 as int].instructions.len() as int,
            s.add_variable(block, value).1,
        ),
{
    let none = Set::<VarId>::empty();
    let (s1, id) = s.fresh();
    lemma_fresh(s, none);
    let step = Step::Assignment { id, value };
    if !s1.overflow {
        assert forall|v: VarId| #[trigger] step.uses().contains(v) implies taken(s1.next_var, v) by {
            assert(taken(s.next_var, v));
        }
    }
    lemma_emit_assignment(s1, none.insert(id), block, id, value);
    assert(none.insert(id).remove(id) =~= none);
    lemma_emit_inv(s1, block, step);
    let t = s1.emit(block, step);
    lemma_kept_trans(s, s1, t);
}

/// Reading a name keeps the state in order, and gives a value that has been taken.
pub proof fn lemma_read_variable(s: Builder, pending: Set<VarId>, block: BlockId, name: Seq<char>)
    requires
        s.inv(),
        s.ssa(pending),
        block.0 < s.blocks(),
    ensures
        s.read_variable(block, name).0.follows_reading(s, pending),
        s.read_variable(block, name).0.lacking(name) <= s.lacking(name),
        s.read_variable(block, name).0.overflow || s.read_variable(block, name).0.valid(
            s.read_variable(block, name).1,
        ),
    decreases s.lacking(name), 0nat, 0nat,
{
    let n = s.blocks();
    match lookup(s.defs, name, block) {
        Some(x) => {
            lemma_find_def(s.defs, name, block, 0);
            if !s.overflow {
                lemma_ssa_parts(s, pending);
            }
        },
        None => {
            if !s.is_sealed(block) {
                let (s0, id) = s.fresh();
                lemma_fresh(s, pending);
                let step = Step::Assignment { id, value: Value::Phi(Seq::empty()) };
                let s1 = s0.emit(block, step);
                if !s0.overflow {
                    assert forall|v: VarId| #[trigger] step.uses().contains(v) implies taken(s0.next_var, v) by {
                        assert(Seq::<VarId>::empty().to_set().contains(v));
                    }
                }
                lemma_emit_assignment(s0, pending.insert(id), block, id, Value::Phi(Seq::empty()));
                assert(s0.overflow || pending.insert(id).remove(id) =~= pending);
                if s0.overflow {
                    lemma_ssa_overflow(s1, pending);
                }
                lemma_emit_inv(s0, block, step);
                let s2 = s1.assign(block, name, id);
                lemma_assign(s1, pending, block, name, id);
                let index = s2.program.blocks[block.0 as int].instructions.len() - 1;
                let open = Open { name, var: id, index };
                let s3 = s2.defer(block, open);
                lemma_defer(s2, pending, block, open);
                lemma_missing_assigned(s1.defs, name, block, id, name, n);
                lemma_kept_trans(s, s0, s1);
                lemma_kept_trans(s, s1, s2);
                lemma_kept_trans(s, s2, s3);
                assert forall|b: int, k: int|
                    0 <= b < s3.unresolved.len() && 0 <= k < s3.unresolved[b].len() implies 0 <= (#[trigger] s3.unresolved[b][k]).index < s3.program.blocks[b].instructions.len() by {
                    if b == block.0 && k == s1.unresolved[b].len() {
                    } else {
                        assert(s1.unresolved[b][k].index < s1.program.blocks[b].instructions.len());
                    }
                }
            } else {
                let (s1, id) = s.fresh();
                lemma_fresh(s, pending);
                let more = pending.insert(id);
                let s2 = s1.assign(block, name, id);
                lemma_assign(s1, more, block, name, id);
                lemma_missing_assigned(s1.defs, name, block, id, name, n);
                let prevs = s2.program.blocks[block.0 as int].prev;
                assert forall|k: int| 0 <= k < prevs.len() implies (#[trigger] prevs[k]).0 < s2.blocks() by {
                    assert(s.program.blocks[block.0 as int].prev[k].0 < s.program.blocks.len());
                }
                lemma_read_all(s2, more, prevs, 0, name);
                let (s3, all) = s2.read_all(prevs, 0, name);
                let value = if all.len() == 1 {
                    Value::Single(Operand::Var(all[0]))
                } else {
                    Value::Phi(all)
                };
                let step = Step::Assignment { id, value };
                if !s3.overflow {
                    assert forall|v: VarId| #[trigger] step.uses().contains(v) implies taken(s3.next_var, v) by {
                        if all.len() == 1 {
                            assert(v == all[0]);
                        } else {
                            let k = choose|k: int| 0 <= k < all.len() && all[k] == v;
                            assert(taken(s3.next_var, all[k]));
                        }
                    }
                }
                lemma_emit_assignment(s3, more, block, id, value);
                assert(s3.overflow || more.remove(id) =~= pending);
                let s4 = s3.emit(block, step);
                if s3.overflow {
                    lemma_ssa_overflow(s4, pending);
                }
                lemma_emit_inv(s3, block, step);
                lemma_kept_trans(s, s1, s2);
                lemma_kept_trans(s, s2, s3);
                lemma_kept_trans(s, s3, s4);
                assert(s.grown(s4)) by {
                    assert forall|x: int| 0 <= x < s.blocks() implies (#[trigger] s.program.blocks[x]).prev
                        == s4.program.blocks[x].prev && s.program.blocks[x].next == s4.program.blocks[x].next
                        && s.program.blocks[x].instructions.len() <= s4.program.blocks[x].instructions.len() by {
                        assert(s2.program.blocks[x].prev == s3.program.blocks[x].prev);
                    }
                }
            }
        },
    }
}

/// Reading a name in a list of blocks keeps the state in order, and gives
/// values that have been taken.
pub proof fn lemma_read_all(s: Builder, pending: Set<VarId>, blocks: Seq<BlockId>, from: int, name: Seq<char>)
    requires
        s.inv(),
        s.ssa(pending),
        0 <= from,
        forall|k: int| 0 <= k < blocks.len() ==> (#[trigger] blocks[k]).0 < s.blocks(),
    ensures
        s.read_all(blocks, from, name).0.follows_reading(s, pending),
        s.read_all(blocks, from, name).0.lacking(name) <= s.lacking(name),
        s.read_all(blocks, from, name).0.overflow || s.read_all(blocks, from, name).0.valid_all(
            s.read_all(blocks, from, name).1,
        ),
    decreases s.lacking(name), 1nat, blocks.len() - from,
{
    if from < blocks.len() {
        lemma_read_variable(s, pending, blocks[from], name);
        let (s1, v) = s.read_variable(blocks[from], name);
        lemma_read_all(s1, pending, blocks, from + 1, name);
        let (s2, rest) = s1.read_all(blocks, from + 1, name);
        lemma_kept_trans(s, s1, s2);
        lemma_grown_trans(s, s1, s2);
        if !s2.overflow {
            let all = seq![v] + rest;
            assert forall|k: int| 0 <= k < all.len() implies taken(s2.next_var, #[trigger] all[k]) by {
                if k == 0 {
                    assert(taken(s1.next_var, v));
                } else {
                    assert(all[k] == rest[k - 1]);
                    assert(taken(s2.next_var, rest[k - 1]));
                }
            }
        }
    }
}

/// Filling the phis that waited for a block keeps the state in order.
pub proof fn lemma_resolve_all(s: Builder, pending: Set<VarId>, block: BlockId, opens: Seq<Open>, from: int)
    requires
        s.inv(),
        s.ssa(pending),
        block.0 < s.blocks(),
        0 <= from,
        forall|k: int|
            from <= k < opens.len() ==> 0 <= (#[trigger] opens[k]).index
                < s.program.blocks[block.0 as int].instructions.len(),
        s.overflow || forall|k: int|
            from <= k < opens.len() ==> s.program.assigns(block.0 as int, (#[trigger] opens[k]).index, opens[k].var),
    ensures
        s.resolve_all(block, opens, from).follows_reading(s, pending),
    decreases opens.len() - from,
{
    if from < opens.len() {
        let open = opens[from];
        let prevs = s.program.blocks[block.0 as int].prev;
        assert forall|k: int| 0 <= k < prevs.len() implies (#[trigger] prevs[k]).0 < s.blocks() by {
            assert(s.program.blocks[block.0 as int].prev[k].0 < s.program.blocks.len());
        }
        lemma_read_all(s, pending, prevs, 0, open.name);
        let (s1, all) = s.read_all(prevs, 0, open.name);
        let value = Value::Phi(without_var(all, open.var));
        let step = Step::Assignment { id: open.var, value };
        assert(0 <= open.index < s.program.blocks[block.0 as int].instructions.len());
        if !s1.overflow {
            lemma_without_var(all, open.var, s1.next_var);
            assert forall|v: VarId| #[trigger] step.uses().contains(v) implies taken(s1.next_var, v) by {
                let left = without_var(all, open.var);
                let k = choose|k: int| 0 <= k < left.len() && left[k] == v;
                assert(taken(s1.next_var, left[k]));
            }
            assert(s.program.assigns(block.0 as int, open.index, open.var));
        }
        lemma_replace(s1, pending, block, open.index, open.var, value);
        lemma_replace_inv(s1, block, open.index, step);
        let s2 = s1.replace(block, open.index, step);
        lemma_kept_trans(s, s1, s2);
        assert(s1.grown(s2));
        lemma_grown_trans(s, s1, s2);
        assert forall|k: int| from + 1 <= k < opens.len() implies 0 <= (#[trigger] opens[k]).index
            < s2.program.blocks[block.0 as int].instructions.len() by {
            assert(opens[k].index < s.program.blocks[block.0 as int].instructions.len());
        }
        if !s2.overflow {
            assert forall|k: int| from + 1 <= k < opens.len() implies s2.program.assigns(
                block.0 as int,
                (#[trigger] opens[k]).index,
                opens[k].var,
            ) by {
                assert(s.program.assigns(block.0 as int, opens[k].index, opens[k].var));
            }
        }
        lemma_resolve_all(s2, pending, block, opens, from + 1);
        let s3 = s2.resolve_all(block, opens, from + 1);
        lemma_kept_trans(s, s2, s3);
        lemma_grown_trans(s, s2, s3);
    }
}

/// Sealing a block keeps the state in order.
pub proof fn lemma_seal_block(s: Builder, pending: Set<VarId>, block: BlockId)
    requires
        s.inv(),
        s.ssa(pending),
        block.0 < s.blocks(),
    ensures
        s.seal_block(block).follows(s, pending),
        s.grown(s.seal_block(block)),
        s.seal_block(block).unsealed() <= s.unsealed(),
    decreases s.unsealed(), 0nat, 0nat,
{
    if !s.sealed[block.0 as int] {
        let s1 = Builder {
            sealed: s.sealed.update(block.0 as int, true),
            unresolved: s.unresolved.update(block.0 as int, Seq::empty()),
            ..s
        };
        let opens = s.unresolved[block.0 as int];
        lemma_count_false_update(s.sealed, block.0 as int);
        assert(s1.inv()) by {
            assert forall|b: int, k: int|
                0 <= b < s1.unresolved.len() && 0 <= k < s1.unresolved[b].len() implies 0 <= (#[trigger] s1.unresolved[b][k]).index < s1.program.blocks[b].instructions.len() by {
                assert(s.unresolved[b][k].index < s.program.blocks[b].instructions.len());
            }
        }
        if !s.overflow {
            lemma_ssa_parts(s, pending);
            assert forall|b: int, k: int|
                0 <= b < s1.unresolved.len() && 0 <= k < s1.unresolved[b].len() implies s1.program.assigns(
                b,
                (#[trigger] s1.unresolved[b][k]).index,
                s1.unresolved[b][k].var,
            ) by {
                assert(s.program.assigns(b, s.unresolved[b][k].index, s.unresolved[b][k].var));
            }
            assert forall|k: int| 0 <= k < opens.len() implies s1.program.assigns(
                block.0 as int,
                (#[trigger] opens[k]).index,
                opens[k].var,
            ) by {
                assert(s.program.assigns(
                    block.0 as int,
                    s.unresolved[block.0 as int][k].index,
                    s.unresolved[block.0 as int][k].var,
                ));
            }
        }
        lemma_same_program(s, s1, pending);
        assert forall|k: int| 0 <= k < opens.len() implies 0 <= (#[trigger] opens[k]).index
            < s1.program.blocks[block.0 as int].instructions.len() by {
            assert(s.unresolved[block.0 as int][k].index < s.program.blocks[block.0 as int].instructions.len());
        }
        lemma_resolve_all(s1, pending, block, opens, 0);
        let s2 = s1.resolve_all(block, opens, 0);
        let next = s2.program.blocks[block.0 as int].next;
        assert forall|k: int| 0 <= k < next.len() implies (#[trigger] next[k]).0 < s2.blocks() by {
            assert(s2.program.blocks[block.0 as int].next[k].0 < s2.program.blocks.len());
        }
        lemma_seal_all(s2, pending, next, 0);
        let s3 = s2.seal_all(next, 0);
        lemma_kept_trans(s, s1, s2);
        lemma_kept_trans(s, s2, s3);
        assert(s.grown(s1));
        lemma_grown_trans(s, s1, s2);
        lemma_grown_trans(s, s2, s3);
    }
}

/// Sealing a list of blocks keeps the state in order.
pub proof fn lemma_seal_all(s: Builder, pending: Set<VarId>, blocks: Seq<BlockId>, from: int)
    requires
        s.inv(),
        s.ssa(pending),
        0 <= from,
        forall|k: int| 0 <= k < blocks.len() ==> (#[trigger] blocks[k]).0 < s.blocks(),
    ensures
        s.seal_all(blocks, from).follows(s, pending),
        s.grown(s.seal_all(blocks, from)),
        s.seal_all(blocks, from).unsealed() <= s.unsealed(),
    decreases s.unsealed(), 1nat, blocks.len() - from,
{
    if from < blocks.len() {
        lemma_seal_block(s, pending, blocks[from]);
        let s1 = s.seal_block(blocks[from]);
        lemma_seal_all(s1, pending, blocks, from + 1);
        let s2 = s1.seal_all(blocks, from + 1);
        lemma_kept_trans(s, s1, s2);
        lemma_grown_trans(s, s1, s2);
    }
}

impl Builder {
    /// What lowering an expression keeps: the state stays in order, and
    /// the operand reads only a value that has been taken.
    pub open spec fn lowered(self, from: Builder, operand: Operand) -> bool {
        &&& self.follows(from, Set::empty())
        &&& self.overflow || operand_taken(self.next_var, operand)
    }

    /// What lowering statements keeps: the state stays in order, and the
    /// block in which what follows goes on is a block.
    pub open spec fn moved(self, from: Builder, next: BlockId) -> bool {
        &&& self.follows(from, Set::empty())
        &&& next.0 < self.blocks()
    }
}

/// What a step of the construction keeps holds again after another step.
pub proof fn lemma_follows_trans(a: Builder, b: Builder, c: Builder)
    requires
        b.follows(a, Set::empty()),
        c.follows(b, Set::empty()),
    ensures
        c.follows(a, Set::empty()),
{
    lemma_kept_trans(a, b, c);
}

/// Reading an identifier keeps the state in order.
pub proof fn lemma_lower_name(s: Builder, block: BlockId, name: Seq<char>)
    requires
        s.inv(),
        s.ssa(Set::empty()),
        block.0 < s.blocks(),
    ensures
        s.lower_name(block, name) matches Ok((t, operand)) ==> t.lowered(s, operand),
{
    match s.constant(name) {
        Some(x) => {
            lemma_find_const(s.consts, name, 0);
            if !s.overflow {
                lemma_ssa_parts(s, Set::empty());
            }
        },
        None => {
            if s.knows(name) {
                lemma_read_variable(s, Set::empty(), block, name);
            }
        },
    }
}

/// Lowering an expression keeps the state in order.
pub proof fn lemma_lower_expr(s: Builder, block: BlockId, expr: Expr)
    requires
        s.inv(),
        s.ssa(Set::empty()),
        block.0 < s.blocks(),
    ensures
        s.lower_expr(block, expr) matches Ok((t, operand)) ==> t.lowered(s, operand),
    decreases expr, 0nat,
{
    match expr {
        Expr::Constant(v) => {},
        Expr::Identifier(ident) => {
            lemma_lower_name(s, block, ident@);
        },
        Expr::BinaryOp(lhs_expr, op, rhs_expr) => {
            lemma_lower_expr(s, block, *lhs_expr);
            if let Ok((s1, lhs)) = s.lower_expr(block, *lhs_expr) {
                lemma_lower_expr(s1, block, *rhs_expr);
                if let Ok((s2, rhs)) = s1.lower_expr(block, *rhs_expr) {
                    let value = Value::BinaryOp { lhs, op, rhs };
                    if !s2.overflow {
                        assert forall|v: VarId| #[trigger] value.uses().contains(v) implies taken(s2.next_var, v) by {
                            if lhs.uses().contains(v) {
                                assert(operand_taken(s1.next_var, lhs));
                            } else {
                                assert(operand_taken(s2.next_var, rhs));
                            }
                        }
                    }
                    lemma_add_variable(s2, block, value);
                    let s3 = s2.add_variable(block, value).0;
                    lemma_follows_trans(s, s1, s2);
                    lemma_follows_trans(s, s2, s3);
                }
            }
        },
        Expr::UnaryOp(_, _) => {},
        Expr::FunctionCall(ident, args) => {
            lemma_lower_args(s, block, args, 0);
            if let Ok((s1, list)) = s.lower_args(block, args, 0) {
                let value = Value::Call { name: ident@, args: list };
                lemma_call_uses(s1, list, ident@);
                lemma_add_variable(s1, block, value);
                lemma_follows_trans(s, s1, s1.add_variable(block, value).0);
            }
        },
        Expr::FieldExpr(d, logic) => {
            lemma_lower_name(s, block, d@);
            if let Ok((s1, arg0)) = s.lower_name(block, d@) {
                lemma_lower_name(s1, block, logic@);
                if let Ok((s2, arg1)) = s1.lower_name(block, logic@) {
                    let list = seq![arg0, arg1];
                    let value = Value::Call { name: "load"@, args: list };
                    if !s2.overflow {
                        assert(operand_taken(s1.next_var, arg0));
                        assert forall|k: int| 0 <= k < list.len() implies operand_taken(
                            s2.next_var,
                            #[trigger] list[k],
                        ) by {}
                    }
                    lemma_call_uses(s2, list, "load"@);
                    lemma_add_variable(s2, block, value);
                    let s3 = s2.add_variable(block, value).0;
                    lemma_follows_trans(s, s1, s2);
                    lemma_follows_trans(s, s2, s3);
                }
            }
        },
    }
}

/// A call reads what its arguments read.
pub proof fn lemma_call_uses(s: Builder, list: Seq<Operand>, name: Seq<char>)
    requires
        s.overflow || s.valid_operands(list),
    ensures
        s.overflow || forall|v: VarId| #[trigger]
            (Value::Call { name, args: list }).uses().contains(v) ==> taken(s.next_var, v),
{
    if !s.overflow {
        assert forall|v: VarId| #[trigger] (Value::Call { name, args: list }).uses().contains(v) implies taken(
            s.next_var,
            v,
        ) by {
            let k = choose|k: int| 0 <= k < list.len() && #[trigger] list[k] == Operand::Var(v);
            assert(operand_taken(s.next_var, list[k]));
        }
    }
}

/// Lowering the arguments of a call keeps the state in order.
pub proof fn lemma_lower_args(s: Builder, block: BlockId, args: Vec<Box<Expr>>, from: int)
    requires
        s.inv(),
        s.ssa(Set::empty()),
        block.0 < s.blocks(),
        0 <= from,
    ensures
        s.lower_args(block, args, from) matches Ok((t, list)) ==> t.follows(s, Set::empty()) && (t.overflow
            || t.valid_operands(list)),
    decreases args, args.len() - from,
{
    if from < args.len() {
        lemma_lower_expr(s, block, *args[from]);
        if let Ok((s1, first)) = s.lower_expr(block, *args[from]) {
            lemma_lower_args(s1, block, args, from + 1);
            if let Ok((s2, rest)) = s1.lower_args(block, args, from + 1) {
                lemma_follows_trans(s, s1, s2);
                if !s2.overflow {
                    let list = seq![first] + rest;
                    assert forall|k: int| 0 <= k < list.len() implies operand_taken(
                        s2.next_var,
                        #[trigger] list[k],
                    ) by {
                        if k == 0 {
                            assert(operand_taken(s1.next_var, first));
                        } else {
                            assert(list[k] == rest[k - 1]);
                            assert(operand_taken(s2.next_var, rest[k - 1]));
                        }
                    }
                }
            }
        }
    }
}

/// Making an operand a value of the program keeps the state in order.
pub proof fn lemma_as_variable(s: Builder, block: BlockId, operand: Operand)
    requires
        s.inv(),
        s.ssa(Set::empty()),
        block.0 < s.blocks(),
        s.overflow || operand_taken(s.next_var, operand),
    ensures
        s.as_variable(block, operand).0.follows(s, Set::empty()),
        s.as_variable(block, operand).0.overflow || s.as_variable(block, operand).0.valid(
            s.as_variable(block, operand).1,
        ),
{
    match operand {
        Operand::Var(id) => {},
        _ => {
            lemma_add_variable(s, block, Value::Single(operand));
        },
    }
}

/// Lowering a statement keeps the state in order.
pub proof fn lemma_lower_stmt(s: Builder, block: BlockId, stmt: Statement)
    requires
        s.inv(),
        s.ssa(Set::empty()),
        block.0 < s.blocks(),
    ensures
        s.lower_stmt(block, stmt) matches Ok((t, next)) ==> t.moved(s, next),
    decreases stmt, 0nat,
{
    let none = Set::<VarId>::empty();
    match stmt {
        Statement::FunctionCall { identifier, arguments } => {
            lemma_lower_args(s, block, arguments, 0);
            if let Ok((s1, args)) = s.lower_args(block, arguments, 0) {
                let value = Value::Call { name: identifier@, args };
                lemma_call_uses(s1, args, identifier@);
                lemma_add_variable(s1, block, value);
                lemma_follows_trans(s, s1, s1.add_variable(block, value).0);
            }
        },
        Statement::Definition { identifier, expression } => {
            lemma_lower_expr(s, block, *expression);
            if let Ok((s1, v)) = s.lower_expr(block, *expression) {
                lemma_as_variable(s1, block, v);
                let (s2, id) = s1.as_variable(block, v);
                lemma_assign(s2, none, block, identifier@, id);
                let s3 = s2.assign(block, identifier@, id);
                lemma_follows_trans(s, s1, s2);
                lemma_follows_trans(s, s2, s3);
            }
        },
        Statement::Assignment { lhs, rhs } => {
            lemma_lower_expr(s, block, *rhs);
            if let Ok((s1, v)) = s.lower_expr(block, *rhs) {
                lemma_as_variable(s1, block, v);
                let (s2, id) = s1.as_variable(block, v);
                lemma_follows_trans(s, s1, s2);
                match *lhs {
                    Expr::Identifier(ident) => {
                        lemma_assign(s2, none, block, ident@, id);
                        lemma_follows_trans(s, s2, s2.assign(block, ident@, id));
                    },
                    Expr::FieldExpr(d, logic) => {
                        lemma_lower_name(s2, block, d@);
                        if let Ok((s3, arg0)) = s2.lower_name(block, d@) {
                            lemma_lower_name(s3, block, logic@);
                            if let Ok((s4, arg1)) = s3.lower_name(block, logic@) {
                                let list = seq![arg0, arg1, Operand::Var(id)];
                                let value = Value::Call { name: "store"@, args: list };
                                if !s4.overflow {
                                    assert(operand_taken(s3.next_var, arg0));
                                    assert(taken(s2.next_var, id));
                                    assert forall|k: int| 0 <= k < list.len() implies operand_taken(
                                        s4.next_var,
                                        #[trigger] list[k],
                                    ) by {}
                                }
                                lemma_call_uses(s4, list, "store"@);
                                lemma_add_variable(s4, block, value);
                                let s5 = s4.add_variable(block, value).0;
                                lemma_follows_trans(s, s2, s3);
                                lemma_follows_trans(s, s3, s4);
                                lemma_follows_trans(s, s4, s5);
                            }
                        }
                    },
                    _ => {},
                }
            }
        },
        Statement::Constant(identifier, expression) => {
            lemma_lower_expr(s, block, *expression);
            if let Ok((s1, v)) = s.lower_expr(block, *expression) {
                lemma_define(s1, none, identifier@, v);
                lemma_follows_trans(s, s1, s1.define(identifier@, v));
            }
        },
        Statement::IfStatement(if_stmt) => {
            lemma_lower_if(s, block, if_stmt);
        },
        Statement::Loop { body } => {
            let (s1, block_next) = s.new_block(false);
            lemma_new_block(s, none, false);
            lemma_new_block_inv(s, false);
            let (s2, block_body) = s1.new_block(false);
            lemma_new_block(s1, none, false);
            lemma_new_block_inv(s1, false);
            let s3 = s2.connect(block, block_body);
            lemma_connect(s2, none, block, block_body);
            lemma_connect_inv(s2, block, block_body);
            lemma_follows_trans(s, s1, s2);
            lemma_follows_trans(s, s2, s3);
            lemma_lower_stmts(s3, block_body, *body.statement_list(), 0);
            if let Ok((s4, body_end)) = s3.lower_stmts(block_body, *body.statement_list(), 0) {
                let s5 = s4.connect(body_end, block_body);
                lemma_connect(s4, none, body_end, block_body);
                lemma_connect_inv(s4, body_end, block_body);
                lemma_follows_trans(s, s3, s4);
                lemma_follows_trans(s, s4, s5);
                if s5.is_sealed(block) {
                    lemma_seal_block(s5, none, block_body);
                    lemma_follows_trans(s, s5, s5.seal_block(block_body));
                }
            }
        },
        Statement::Yield => {
            lemma_emit_other(s, none, block, Step::Yield);
            lemma_emit_inv(s, block, Step::Yield);
        },
        Statement::Return(expr) => {
            lemma_lower_expr(s, block, *expr);
            if let Ok((s1, v)) = s.lower_expr(block, *expr) {
                lemma_emit_other(s1, none, block, Step::Return(v));
                lemma_emit_inv(s1, block, Step::Return(v));
                lemma_follows_trans(s, s1, s1.emit(block, Step::Return(v)));
            }
        },
        _ => {},
    }
}

/// Lowering a conditional keeps the state in order.
pub proof fn lemma_lower_if(s: Builder, block: BlockId, statement: IfStatement)
    requires
        s.inv(),
        s.ssa(Set::empty()),
        block.0 < s.blocks(),
    ensures
        s.lower_if(block, statement) matches Ok((t, next)) ==> t.moved(s, next),
    decreases statement, 0nat,
{
    let none = Set::<VarId>::empty();
    let (condition, body) = match statement {
        IfStatement::If { condition, body } => (condition, body),
        IfStatement::IfElse { condition, body, else_body } => (condition, body),
    };
    let sealed = s.is_sealed(block);
    lemma_lower_expr(s, block, *condition);
    if let Ok((s1, cond)) = s.lower_expr(block, *condition) {
        let (s2, true_start) = s1.new_block(sealed);
        lemma_new_block(s1, none, sealed);
        lemma_new_block_inv(s1, sealed);
        let s3 = s2.connect(block, true_start);
        lemma_connect(s2, none, block, true_start);
        lemma_connect_inv(s2, block, true_start);
        lemma_follows_trans(s, s1, s2);
        lemma_follows_trans(s, s2, s3);
        lemma_lower_stmts(s3, true_start, *body.statement_list(), 0);
        if let Ok((s4, true_end)) = s3.lower_stmts(true_start, *body.statement_list(), 0) {
            let (s5, false_start) = s4.new_block(sealed);
            lemma_new_block(s4, none, sealed);
            lemma_new_block_inv(s4, sealed);
            let s6 = s5.connect(block, false_start);
            lemma_connect(s5, none, block, false_start);
            lemma_connect_inv(s5, block, false_start);
            lemma_follows_trans(s, s3, s4);
            lemma_follows_trans(s, s4, s5);
            lemma_follows_trans(s, s5, s6);
            let lowered = match statement {
                IfStatement::If { condition, body } => Ok((s6, false_start)),
                IfStatement::IfElse { condition, body, else_body } => {
                    lemma_lower_stmts(s6, false_start, *else_body.statement_list(), 0);
                    s6.lower_stmts(false_start, *else_body.statement_list(), 0)
                },
            };
            if let Ok((s7, false_end)) = lowered {
                lemma_follows_trans(s, s6, s7);
                let step = Step::Branch { cond, true_block: true_start, false_block: false_start };
                if !s7.overflow {
                    assert(operand_taken(s1.next_var, cond));
                    assert forall|v: VarId| #[trigger] step.uses().contains(v) implies taken(s7.next_var, v) by {}
                }
                lemma_emit_other(s7, none, block, step);
                lemma_emit_inv(s7, block, step);
                let s8 = s7.emit(block, step);
                let (s9, join) = s8.new_block(sealed);
                lemma_new_block(s8, none, sealed);
                lemma_new_block_inv(s8, sealed);
                let s10 = s9.connect(true_end, join);
                lemma_connect(s9, none, true_end, join);
                lemma_connect_inv(s9, true_end, join);
                let s11 = s10.connect(false_end, join);
                lemma_connect(s10, none, false_end, join);
                lemma_connect_inv(s10, false_end, join);
                lemma_follows_trans(s, s7, s8);
                lemma_follows_trans(s, s8, s9);
                lemma_follows_trans(s, s9, s10);
                lemma_follows_trans(s, s10, s11);
            }
        }
    }
}

/// Lowering statements keeps the state in order.
pub proof fn lemma_lower_stmts(s: Builder, block: BlockId, stmts: Vec<Statement>, from: int)
    requires
        s.inv(),
        s.ssa(Set::empty()),
        block.0 < s.blocks(),
        0 <= from,
    ensures
        s.lower_stmts(block, stmts, from) matches Ok((t, next)) ==> t.moved(s, next),
    decreases stmts, stmts.len() - from,
{
    if from < stmts.len() {
        lemma_lower_stmt(s, block, stmts[from]);
        if let Ok((s1, next)) = s.lower_stmt(block, stmts[from]) {
            lemma_lower_stmts(s1, next, stmts, from + 1);
            if let Ok((s2, end)) = s1.lower_stmts(next, stmts, from + 1) {
                lemma_follows_trans(s, s1, s2);
            }
        }
    }
}

/// Every program that is built is well formed: each value is assigned by
/// exactly one instruction, every value that an instruction reads is
/// assigned, and every block that is named exists.
pub proof fn lemma_build_well_formed(stmts: Vec<Statement>)
    ensures
        Builder::build(stmts) matches Ok(p) ==> p.well_formed(),
{
    let none = Set::<VarId>::empty();
    let s0 = Builder::empty();
    assert(s0.inv());
    assert(s0.ssa(none)) by {
        reveal(Builder::ssa);
        assert forall|v: VarId| #[trigger] s0.program.defined(v) implies false by {
            let (b, i) = choose|b: int, i: int| s0.program.assigns(b, i, v);
        }
    }
    let (s1, entry) = s0.new_block(true);
    lemma_new_block(s0, none, true);
    lemma_new_block_inv(s0, true);
    let s2 = s1.init();
    lemma_init(s1, none);
    assert(s2.inv());
    lemma_lower_stmts(s2, entry, stmts, 0);
    if let Ok((s3, end)) = s2.lower_stmts(entry, stmts, 0) {
        if !s3.overflow {
            lemma_ssa_parts(s3, none);
            assert forall|b: int, i: int, v: VarId| #[trigger] s3.program.reads(b, i, v) implies s3.program.defined(
                v,
            ) by {
                assert(taken(s3.next_var, v));
            }
        }
    }
}

} // verus!
