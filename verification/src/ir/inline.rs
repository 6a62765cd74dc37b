//! Folding copies into their uses.
//!
//! Every value is visited once, after the values that it reads. An operand
//! that reads a value which by then is a copy is replaced by what is
//! copied; a phi whose operands all come down to one operand becomes a
//! copy of it.
use vstd::prelude::*;
use std::collections::HashSet;
use crate::ir::types::{
    Block,
    BlockId,
    BlockView,
    Instruction,
    Operand,
    Program,
    ProgramView,
    Step,
    Value,
    VarId,
    VarOrConst,
    VarValue,
    operands,
    steps,
};

verus! {

broadcast use vstd::std_specs::hash::group_hash_axioms;

/// How many of the steps assign a value that is not in `done`.
pub open spec fn open_steps(s: Seq<Step>, done: Set<usize>) -> nat
    decreases s.len(),
{
    if s.len() == 0 {
        0
    } else {
        open_steps(s.drop_last(), done) + match s.last() {
            Step::Assignment { id, value } => if done.contains(id.0) {
                0nat
            } else {
                1nat
            },
            _ => 0nat,
        }
    }
}

/// How many instructions of the blocks assign a value that is not in `done`.
pub open spec fn open_blocks(blocks: Seq<BlockView>, done: Set<usize>) -> nat
    decreases blocks.len(),
{
    if blocks.len() == 0 {
        0
    } else {
        open_blocks(blocks.drop_last(), done) + open_steps(blocks.last().instructions, done)
    }
}

/// The operands of a list of values.
pub open spec fn as_operands(vars: Seq<VarId>) -> Seq<Operand> {
    Seq::new(vars.len(), |i: int| Operand::Var(vars[i]))
}

/// Whether a list is not empty and all its operands are the same key as the first.
pub open spec fn all_same(list: Seq<Operand>) -> bool {
    list.len() > 0 && forall|k: int| 0 <= k < list.len() ==> (#[trigger] list[k]).same(list[0])
}

impl ProgramView {
    /// The place where `id` is assigned.
    pub open spec fn position(self, id: VarId) -> (int, int) {
        choose|b: int, i: int| self.assigns(b, i, id)
    }

    /// What the instruction that assigns `id` computes.
    pub open spec fn value_of(self, id: VarId) -> Value {
        match self.at(self.position(id).0, self.position(id).1) {
            Step::Assignment { id, value } => value,
            _ => Value::Phi(Seq::empty()),
        }
    }

    /// The program with another step at a place.
    pub open spec fn with_step(self, b: int, i: int, step: Step) -> ProgramView {
        ProgramView {
            blocks: self.blocks.update(
                b,
                BlockView { instructions: self.blocks[b].instructions.update(i, step), ..self.blocks[b] },
            ),
        }
    }

    /// The program in which `id` is assigned `value`.
    pub open spec fn with_value(self, id: VarId, value: Value) -> ProgramView {
        self.with_step(self.position(id).0, self.position(id).1, Step::Assignment { id, value })
    }

    /// Whether `other` has the same blocks and the same instructions but
    /// for what the assignments compute.
    pub open spec fn same_frame(self, other: ProgramView) -> bool {
        &&& self.blocks.len() == other.blocks.len()
        &&& forall|b: int|
            0 <= b < self.blocks.len() ==> (#[trigger] self.blocks[b]).prev == other.blocks[b].prev
                && self.blocks[b].next == other.blocks[b].next && self.blocks[b].instructions.len()
                == other.blocks[b].instructions.len()
        &&& forall|b: int, i: int| #[trigger]
            self.has(b, i) ==> match self.at(b, i) {
                Step::Assignment { id, value } => other.at(b, i).defines() == Some(id),
                step => other.at(b, i) == step,
            }
    }
}

/// The state of the pass: the program, and the values that have been visited.
pub struct Inlining {
    pub program: ProgramView,
    pub done: Set<usize>,
}

impl Inlining {
    /// How many assigned values have not been visited.
    pub open spec fn todo(self) -> nat {
        open_blocks(self.program.blocks, self.done)
    }

    /// Visits `id`, unless it was visited or nothing assigns it: first the
    /// values that it reads, then its own assignment, in which every
    /// operand that reads a copy is replaced by what is copied. A phi is
    /// left as it is unless its operands all come down to one operand,
    /// of which it then becomes a copy.
    pub open spec fn variable(self, id: VarId) -> Inlining
        decreases self.todo(), 0nat, 0nat,
    {
        if self.done.contains(id.0) || !self.program.defined(id) {
            self
        } else {
            let start = Inlining { done: self.done.insert(id.0), ..self };
            // a value that is visited is one value fewer to visit: this is why the pass ends
            if start.todo() < self.todo() {
                match self.program.value_of(id) {
                    Value::Single(simple) => {
                        let (s, val) = start.operand(simple);
                        Inlining { program: s.program.with_value(id, Value::Single(val)), ..s }
                    },
                    Value::Phi(vars) => {
                        let (s, list) = start.operands(as_operands(vars), 0);
                        if all_same(list) {
                            Inlining { program: s.program.with_value(id, Value::Single(list[0])), ..s }
                        } else {
                            s
                        }
                    },
                    Value::BinaryOp { lhs, op, rhs } => {
                        let (s1, lhs_new) = start.operand(lhs);
                        // visiting leaves no more values to visit, so the pass ends
                        if s1.todo() <= start.todo() {
                            let (s2, rhs_new) = s1.operand(rhs);
                            Inlining {
                                program: s2.program.with_value(
                                    id,
                                    Value::BinaryOp { lhs: lhs_new, op, rhs: rhs_new },
                                ),
                                ..s2
                            }
                        } else {
                            s1
                        }
                    },
                    Value::Call { name, args } => {
                        let (s, list) = start.operands(args, 0);
                        Inlining { program: s.program.with_value(id, Value::Call { name, args: list }), ..s }
                    },
                }
            } else {
                start
            }
        }
    }

    /// Visits the value that an operand reads, if it reads one, and gives
    /// what is copied if that value is then a copy, else the operand.
    pub open spec fn operand(self, v: Operand) -> (Inlining, Operand)
        decreases self.todo(), 1nat, 0nat,
    {
        match v {
            Operand::Var(id) => {
                let s = self.variable(id);
                match s.program.value_of(id) {
                    Value::Single(x) => if s.program.defined(id) {
                        (s, x)
                    } else {
                        (s, v)
                    },
                    _ => (s, v),
                }
            },
            _ => (self, v),
        }
    }

    /// Does the same for each operand of a list from `from` on, in order.
    pub open spec fn operands(self, list: Seq<Operand>, from: int) -> (Inlining, Seq<Operand>)
        decreases self.todo(), 2nat, list.len() - from,
    {
        if from < 0 || from >= list.len() {
            (self, Seq::empty())
        } else {
            let (s1, first) = self.operand(list[from]);
            // visiting leaves no more values to visit, so the pass ends
            if s1.todo() <= self.todo() {
                let (s2, rest) = s1.operands(list, from + 1);
                (s2, seq![first] + rest)
            } else {
                (s1, seq![first])
            }
        }
    }

    /// Visits each value of a list from `from` on, in order.
    pub open spec fn variables(self, ids: Seq<VarId>, from: int) -> Inlining
        decreases ids.len() - from,
    {
        if from < 0 || from >= ids.len() {
            self
        } else {
            self.variable(ids[from]).variables(ids, from + 1)
        }
    }
}

/// The values that the steps assign, in order.
pub open spec fn assigned_in(s: Seq<Step>) -> Seq<VarId>
    decreases s.len(),
{
    if s.len() == 0 {
        Seq::empty()
    } else {
        match s.last() {
            Step::Assignment { id, value } => assigned_in(s.drop_last()).push(id),
            _ => assigned_in(s.drop_last()),
        }
    }
}

/// The values that the blocks assign, in order.
pub open spec fn assigned_ids(blocks: Seq<BlockView>) -> Seq<VarId>
    decreases blocks.len(),
{
    if blocks.len() == 0 {
        Seq::empty()
    } else {
        assigned_ids(blocks.drop_last()) + assigned_in(blocks.last().instructions)
    }
}

impl ProgramView {
    /// The program with every copy folded into its uses: the values are
    /// visited in the order in which they are assigned.
    pub open spec fn inlined(self) -> ProgramView {
        (Inlining { program: self, done: Set::empty() }).variables(assigned_ids(self.blocks), 0).program
    }
}

/// Visiting more values leaves no more to visit.
pub proof fn lemma_open_steps_mono(s: Seq<Step>, done: Set<usize>, more: Set<usize>)
    requires
        done.subset_of(more),
    ensures
        open_steps(s, more) <= open_steps(s, done),
    decreases s.len(),
{
    if s.len() > 0 {
        lemma_open_steps_mono(s.drop_last(), done, more);
    }
}

/// Visiting more values leaves no more to visit.
pub proof fn lemma_open_blocks_mono(blocks: Seq<BlockView>, done: Set<usize>, more: Set<usize>)
    requires
        done.subset_of(more),
    ensures
        open_blocks(blocks, more) <= open_blocks(blocks, done),
    decreases blocks.len(),
{
    if blocks.len() > 0 {
        lemma_open_blocks_mono(blocks.drop_last(), done, more);
        lemma_open_steps_mono(blocks.last().instructions, done, more);
    }
}

/// Visiting a value that a step assigns leaves fewer to visit.
pub proof fn lemma_open_steps_visit(s: Seq<Step>, done: Set<usize>, i: int, id: VarId)
    requires
        0 <= i < s.len(),
        s[i].defines() == Some(id),
        !done.contains(id.0),
    ensures
        open_steps(s, done.insert(id.0)) < open_steps(s, done),
    decreases s.len(),
{
    if i == s.len() - 1 {
        lemma_open_steps_mono(s.drop_last(), done, done.insert(id.0));
    } else {
        lemma_open_steps_visit(s.drop_last(), done, i, id);
    }
}

/// Visiting a value that an instruction assigns leaves fewer to visit.
pub proof fn lemma_open_blocks_visit(blocks: Seq<BlockView>, done: Set<usize>, b: int, i: int, id: VarId)
    requires
        0 <= b < blocks.len(),
        0 <= i < blocks[b].instructions.len(),
        blocks[b].instructions[i].defines() == Some(id),
        !done.contains(id.0),
    ensures
        open_blocks(blocks, done.insert(id.0)) < open_blocks(blocks, done),
    decreases blocks.len(),
{
    if b == blocks.len() - 1 {
        lemma_open_blocks_mono(blocks.drop_last(), done, done.insert(id.0));
        lemma_open_steps_visit(blocks.last().instructions, done, i, id);
    } else {
        lemma_open_blocks_visit(blocks.drop_last(), done, b, i, id);
        lemma_open_steps_mono(blocks.last().instructions, done, done.insert(id.0));
    }
}

/// Steps that assign the same values leave the same number to visit.
pub proof fn lemma_open_steps_frame(s: Seq<Step>, t: Seq<Step>, done: Set<usize>)
    requires
        s.len() == t.len(),
        forall|i: int| 0 <= i < s.len() ==> (#[trigger] s[i]).defines() == t[i].defines(),
    ensures
        open_steps(s, done) == open_steps(t, done),
    decreases s.len(),
{
    if s.len() > 0 {
        assert forall|i: int| 0 <= i < s.drop_last().len() implies (#[trigger] s.drop_last()[i]).defines()
            == t.drop_last()[i].defines() by {
            assert(s[i].defines() == t[i].defines());
        }
        lemma_open_steps_frame(s.drop_last(), t.drop_last(), done);
        assert(s[s.len() - 1].defines() == t[s.len() - 1].defines());
    }
}

/// Blocks that assign the same values leave the same number to visit.
pub proof fn lemma_open_blocks_frame(s: Seq<BlockView>, t: Seq<BlockView>, done: Set<usize>)
    requires
        s.len() == t.len(),
        forall|b: int| 0 <= b < s.len() ==> (#[trigger] s[b]).instructions.len() == t[b].instructions.len(),
        forall|b: int, i: int|
            0 <= b < s.len() && 0 <= i < s[b].instructions.len() ==> (#[trigger] s[b].instructions[i]).defines()
                == t[b].instructions[i].defines(),
    ensures
        open_blocks(s, done) == open_blocks(t, done),
    decreases s.len(),
{
    if s.len() > 0 {
        let n = s.len() - 1;
        assert forall|b: int| 0 <= b < s.drop_last().len() implies (#[trigger] s.drop_last()[b]).instructions.len()
            == t.drop_last()[b].instructions.len() by {
            assert(s[b].instructions.len() == t[b].instructions.len());
        }
        assert forall|b: int, i: int|
            0 <= b < s.drop_last().len() && 0 <= i < s.drop_last()[b].instructions.len() implies (
        #[trigger] s.drop_last()[b].instructions[i]).defines() == t.drop_last()[b].instructions[i].defines() by {
            assert(s[b].instructions[i].defines() == t[b].instructions[i].defines());
        }
        lemma_open_blocks_frame(s.drop_last(), t.drop_last(), done);
        assert(s[n].instructions.len() == t[n].instructions.len());
        assert forall|i: int| 0 <= i < s[n].instructions.len() implies (#[trigger] s[n].instructions[i]).defines()
            == t[n].instructions[i].defines() by {}
        lemma_open_steps_frame(s[n].instructions, t[n].instructions, done);
    }
}

/// Programs with the same frame assign the same values at the same places.
pub proof fn lemma_same_frame(p: ProgramView, q: ProgramView)
    requires
        p.same_frame(q),
    ensures
        forall|b: int, i: int| #[trigger] q.has(b, i) <==> p.has(b, i),
        forall|b: int, i: int, v: VarId| #[trigger] q.assigns(b, i, v) <==> p.assigns(b, i, v),
        forall|v: VarId| #[trigger] q.defined(v) <==> p.defined(v),
        p.single_assignment() ==> q.single_assignment(),
        forall|done: Set<usize>| #[trigger] open_blocks(q.blocks, done) == open_blocks(p.blocks, done),
        q.same_frame(p),
{
    assert forall|b: int, i: int| #[trigger] q.has(b, i) <==> p.has(b, i) by {
        if 0 <= b < p.blocks.len() {
            assert(p.blocks[b].instructions.len() == q.blocks[b].instructions.len());
        }
    }
    assert forall|b: int, i: int, v: VarId| #[trigger] q.assigns(b, i, v) <==> p.assigns(b, i, v) by {
        if p.has(b, i) {
            assert(q.has(b, i));
        }
    }
    assert forall|v: VarId| #[trigger] q.defined(v) <==> p.defined(v) by {
        if p.defined(v) {
            let (b, i) = choose|b: int, i: int| p.assigns(b, i, v);
            assert(q.assigns(b, i, v));
        }
        if q.defined(v) {
            let (b, i) = choose|b: int, i: int| q.assigns(b, i, v);
            assert(p.assigns(b, i, v));
        }
    }
    if p.single_assignment() {
        assert forall|b1: int, i1: int, b2: int, i2: int, v: VarId|
            #![trigger q.assigns(b1, i1, v), q.assigns(b2, i2, v)]
            q.assigns(b1, i1, v) && q.assigns(b2, i2, v) implies b1 == b2 && i1 == i2 by {
            assert(p.assigns(b1, i1, v) && p.assigns(b2, i2, v));
        }
    }
    assert forall|done: Set<usize>| #[trigger] open_blocks(q.blocks, done) == open_blocks(p.blocks, done) by {
        assert forall|b: int, i: int|
            0 <= b < p.blocks.len() && 0 <= i < p.blocks[b].instructions.len() implies (
        #[trigger] p.blocks[b].instructions[i]).defines() == q.blocks[b].instructions[i].defines() by {
            assert(p.has(b, i));
            assert(p.at(b, i) == p.blocks[b].instructions[i]);
        }
        lemma_open_blocks_frame(p.blocks, q.blocks, done);
    }
    assert(q.same_frame(p)) by {
        assert forall|b: int, i: int| #[trigger] q.has(b, i) implies match q.at(b, i) {
            Step::Assignment { id, value } => p.at(b, i).defines() == Some(id),
            step => p.at(b, i) == step,
        } by {
            assert(p.has(b, i));
        }
    }
}

/// A chain of programs that each have the frame of the one before.
pub proof fn lemma_same_frame_trans(p: ProgramView, q: ProgramView, r: ProgramView)
    requires
        p.same_frame(q),
        q.same_frame(r),
    ensures
        p.same_frame(r),
{
    lemma_same_frame(p, q);
    assert forall|b: int| 0 <= b < p.blocks.len() implies (#[trigger] p.blocks[b]).prev == r.blocks[b].prev
        && p.blocks[b].next == r.blocks[b].next && p.blocks[b].instructions.len()
        == r.blocks[b].instructions.len() by {
        assert(p.blocks[b].prev == q.blocks[b].prev);
        assert(q.blocks[b].prev == r.blocks[b].prev);
    }
    assert forall|b: int, i: int| #[trigger] p.has(b, i) implies match p.at(b, i) {
        Step::Assignment { id, value } => r.at(b, i).defines() == Some(id),
        step => r.at(b, i) == step,
    } by {
        assert(q.has(b, i));
    }
}

/// Giving an assignment another value to compute, from values that are
/// assigned, keeps the frame of the program and keeps it well formed.
pub proof fn lemma_with_step(p: ProgramView, b: int, i: int, id: VarId, value: Value)
    requires
        p.well_formed(),
        p.assigns(b, i, id),
        forall|v: VarId| #[trigger] value.uses().contains(v) ==> p.defined(v),
    ensures
        p.same_frame(p.with_step(b, i, Step::Assignment { id, value })),
        p.with_step(b, i, Step::Assignment { id, value }).well_formed(),
        p.with_value(id, value) == p.with_step(b, i, Step::Assignment { id, value }),
{
    let step = Step::Assignment { id, value };
    let q = p.with_step(b, i, step);
    assert(p.position(id) == (b, i)) by {
        let (pb, pi) = p.position(id);
        assert(p.assigns(pb, pi, id));
    }
    assert(p.same_frame(q));
    lemma_same_frame(p, q);
    assert forall|c: int, j: int, v: VarId| #[trigger] q.reads(c, j, v) implies q.defined(v) by {
        if c == b && j == i {
            assert(value.uses().contains(v));
            assert(p.defined(v));
        } else {
            assert(p.reads(c, j, v));
            assert(p.defined(v));
        }
    }
    assert forall|c: int, k: int| 0 <= c < q.blocks.len() && 0 <= k < q.blocks[c].next.len() implies (
    #[trigger] q.blocks[c].next[k]).0 < q.blocks.len() by {
        assert(p.blocks[c].next[k].0 < p.blocks.len());
    }
    assert forall|c: int, k: int| 0 <= c < q.blocks.len() && 0 <= k < q.blocks[c].prev.len() implies (
    #[trigger] q.blocks[c].prev[k]).0 < q.blocks.len() by {
        assert(p.blocks[c].prev[k].0 < p.blocks.len());
    }
    assert forall|c: int, j: int| #[trigger] q.has(c, j) implies q.at(c, j).targets_below(
        q.blocks.len() as int,
    ) by {
        assert(p.has(c, j));
    }
}

/// The pass at work: the program, and the values that have been visited.
pub struct InlineState {
    program: Program,
    inlined: HashSet<usize>,
}

impl View for InlineState {
    type V = Inlining;

    closed spec fn view(&self) -> Inlining {
        Inlining { program: self.program@, done: self.inlined@ }
    }
}

impl InlineState {
    /// The pass before any value has been visited.
    pub fn new(program: Program) -> (r: InlineState)
        ensures
            r@ == (Inlining { program: program@, done: Set::empty() }),
    {
        InlineState { program, inlined: HashSet::new() }
    }

    /// The program as the pass has left it.
    pub fn finish(self) -> (r: Program)
        ensures
            r@ == self@.program,
    {
        self.program
    }

    /// The place where `var_id` is assigned, if it is assigned.
    pub fn find_var(&self, var_id: VarId) -> (r: Option<(BlockId, usize)>)
        ensures
            match r {
                Some((b, i)) => self@.program.assigns(b.0 as int, i as int, var_id),
                None => !self@.program.defined(var_id),
            },
    {
        find_var(&self.program, var_id)
    }

    /// What the instruction that assigns `id` computes, if one does.
    pub fn get_value(&self, id: VarId) -> (r: Option<VarValue>)
        requires
            self@.program.single_assignment(),
        ensures
            match r {
                Some(value) => self@.program.defined(id) && value@ == self@.program.value_of(id),
                None => !self@.program.defined(id),
            },
    {
        match self.find_var(id) {
            Some((b, i)) => {
                proof {
                    let (pb, pi) = self@.program.position(id);
                    assert(self@.program.assigns(pb, pi, id));
                }
                match &self.program.blocks[b.0].instructions[i] {
                    Instruction::Assignment { id: _, value } => Some(value.duplicate()),
                    _ => None,
                }
            },
            None => None,
        }
    }

    /// Makes the instruction that assigns `id` compute `value`.
    pub fn set_var(&mut self, id: VarId, value: VarValue)
        requires
            old(self)@.program.well_formed(),
            old(self)@.program.defined(id),
            forall|v: VarId| #[trigger] value@.uses().contains(v) ==> old(self)@.program.defined(v),
        ensures
            final(self)@ == (Inlining { program: old(self)@.program.with_value(id, value@), ..old(self)@ }),
            final(self)@.program.well_formed(),
            old(self)@.program.same_frame(final(self)@.program),
    {
        match self.find_var(id) {
            Some((b, i)) => {
                proof {
                    lemma_with_step(self@.program, b.0 as int, i as int, id, value@);
                }
                self.program.blocks[b.0].instructions[i] = Instruction::Assignment { id, value };
                proof {
                    let q = old(self)@.program.with_step(
                        b.0 as int,
                        i as int,
                        Step::Assignment { id, value: value@ },
                    );
                    assert(self@.program.blocks =~= q.blocks) by {
                        assert(self@.program.blocks[b.0 as int].instructions =~= q.blocks[b.0 as int].instructions);
                    }
                }
            },
            None => {},
        }
    }

    /// Visits `id`.
    pub fn inline_variable(&mut self, id: VarId)
        requires
            old(self)@.program.well_formed(),
        ensures
            final(self)@ == old(self)@.variable(id),
            final(self)@.program.well_formed(),
            old(self)@.program.same_frame(final(self)@.program),
            final(self)@.todo() <= old(self)@.todo(),
            old(self)@.done.subset_of(final(self)@.done),
        decreases old(self)@.todo(), 0nat, 0nat,
    {
        if self.inlined.contains(&id.0) {
            proof {
                lemma_frame_refl(self@.program);
            }
            return ;
        }
        let value = match self.get_value(id) {
            Some(value) => value,
            None => {
                proof {
                    lemma_frame_refl(self@.program);
                }
                return ;
            },
        };
        proof {
            let (b, i) = self@.program.position(id);
            assert(self@.program.assigns(b, i, id));
            lemma_open_blocks_visit(self@.program.blocks, self@.done, b, i, id);
        }
        self.inlined.insert(id.0);
        let ghost start = self@;
        let ghost p0 = old(self)@.program;
        let ghost value0 = value@;
        assert(forall|v: VarId| #[trigger] value0.uses().contains(v) ==> p0.defined(v)) by {
            let (b, i) = p0.position(id);
            assert(p0.assigns(b, i, id));
            assert forall|v: VarId| #[trigger] value0.uses().contains(v) implies p0.defined(v) by {
                assert(p0.reads(b, i, v));
            }
        }
        match value {
            VarValue::Single(simple) => {
                proof {
                    assert forall|u: VarId| #[trigger] simple@.uses().contains(u) implies p0.defined(u) by {
                        assert(value0.uses().contains(u));
                    }
                }
                let val = self.inline_simple(&simple);
                proof {
                    lemma_same_frame(p0, self@.program);
                }
                let ghost s = self@;
                self.set_var(id, VarValue::Single(val));
                proof {
                    lemma_same_frame_trans(p0, s.program, self@.program);
                    lemma_same_frame(s.program, self@.program);
                }
            },
            VarValue::Phi(vars) => {
                proof {
                    assert forall|k: int| 0 <= k < vars@.len() implies p0.defined(#[trigger] vars@[k]) by {
                        assert(vars@.contains(vars@[k]));
                        assert(value0.uses().contains(vars@[k]));
                    }
                }
                let list = self.inline_vars(&vars);
                proof {
                    lemma_same_frame(p0, self@.program);
                }
                if same_operands(&list) {
                    let ghost s = self@;
                    let first = list[0].duplicate();
                    self.set_var(id, VarValue::Single(first));
                    proof {
                        lemma_same_frame_trans(p0, s.program, self@.program);
                        lemma_same_frame(s.program, self@.program);
                    }
                }
            },
            VarValue::BinaryOp { lhs, op, rhs } => {
                proof {
                    assert forall|u: VarId| #[trigger] lhs@.uses().contains(u) implies p0.defined(u) by {
                        assert(value0.uses().contains(u));
                    }
                    assert forall|u: VarId| #[trigger] rhs@.uses().contains(u) implies p0.defined(u) by {
                        assert(value0.uses().contains(u));
                    }
                }
                let lhs_new = self.inline_simple(&lhs);
                let ghost s1 = self@;
                proof {
                    lemma_same_frame(p0, s1.program);
                }
                let rhs_new = self.inline_simple(&rhs);
                let ghost s2 = self@;
                proof {
                    lemma_same_frame_trans(p0, s1.program, s2.program);
                    lemma_same_frame(p0, s2.program);
                    lemma_same_frame(s1.program, s2.program);
                }
                self.set_var(id, VarValue::BinaryOp { lhs: lhs_new, op, rhs: rhs_new });
                proof {
                    lemma_same_frame_trans(p0, s2.program, self@.program);
                    lemma_same_frame(s2.program, self@.program);
                }
            },
            VarValue::Call { name, args } => {
                proof {
                    assert forall|k: int, u: VarId|
                        0 <= k < args@.len() && #[trigger] args@[k]@.uses().contains(u) implies p0.defined(u) by {
                        assert(operands(args@)[k] == Operand::Var(u));
                        assert(value0.uses().contains(u));
                    }
                }
                let list = self.inline_args(&args);
                proof {
                    lemma_same_frame(p0, self@.program);
                }
                let ghost s = self@;
                proof {
                    assert forall|v: VarId| #[trigger]
                        (Value::Call { name: name@, args: operands(list@) }).uses().contains(
                            v,
                        ) implies s.program.defined(v) by {
                        let ops = operands(list@);
                        let k = choose|k: int| 0 <= k < ops.len() && #[trigger] ops[k] == Operand::Var(v);
                        assert(ops[k].uses().contains(v));
                    }
                }
                self.set_var(id, VarValue::Call { name, args: list });
                proof {
                    lemma_same_frame_trans(p0, s.program, self@.program);
                    lemma_same_frame(s.program, self@.program);
                }
            },
        }
    }

    /// Visits the value that an operand reads, and gives what stands for the operand.
    pub fn inline_simple(&mut self, v: &VarOrConst) -> (r: VarOrConst)
        requires
            old(self)@.program.well_formed(),
            forall|u: VarId| #[trigger] v@.uses().contains(u) ==> old(self)@.program.defined(u),
        ensures
            (final(self)@, r@) == old(self)@.operand(v@),
            final(self)@.program.well_formed(),
            old(self)@.program.same_frame(final(self)@.program),
            final(self)@.todo() <= old(self)@.todo(),
            old(self)@.done.subset_of(final(self)@.done),
            forall|u: VarId| #[trigger] r@.uses().contains(u) ==> final(self)@.program.defined(u),
        decreases old(self)@.todo(), 1nat, 0nat,
    {
        match v {
            VarOrConst::Var(id) => {
                self.inline_variable(*id);
                proof {
                    lemma_same_frame(old(self)@.program, self@.program);
                    assert(v@.uses().contains(*id));
                }
                if let Some(next_value) = self.get_value(*id) {
                    if let VarValue::Single(s) = next_value {
                        proof {
                            let (b, i) = self@.program.position(*id);
                            assert(self@.program.assigns(b, i, *id));
                            assert forall|u: VarId| #[trigger] s@.uses().contains(u) implies self@.program.defined(
                                u,
                            ) by {
                                assert(self@.program.reads(b, i, u));
                            }
                        }
                        return s;
                    }
                }
                v.duplicate()
            },
            _ => {
                proof {
                    lemma_frame_refl(self@.program);
                }
                v.duplicate()
            },
        }
    }

    /// Does the same for each operand of a list, in order.
    pub fn inline_args(&mut self, args: &Vec<VarOrConst>) -> (list: Vec<VarOrConst>)
        requires
            old(self)@.program.well_formed(),
            forall|k: int, u: VarId|
                0 <= k < args@.len() && #[trigger] args@[k]@.uses().contains(u) ==> old(self)@.program.defined(u),
        ensures
            (final(self)@, operands(list@)) == old(self)@.operands(operands(args@), 0),
            final(self)@.program.well_formed(),
            old(self)@.program.same_frame(final(self)@.program),
            final(self)@.todo() <= old(self)@.todo(),
            old(self)@.done.subset_of(final(self)@.done),
            forall|k: int, u: VarId|
                0 <= k < list@.len() && #[trigger] list@[k]@.uses().contains(u) ==> final(self)@.program.defined(u),
        decreases old(self)@.todo(), 2nat, 0nat,
    {
        let mut list: Vec<VarOrConst> = Vec::new();
        let mut i: usize = 0;
        proof {
            lemma_frame_refl(self@.program);
        }
        while i < args.len()
            invariant
                i <= args.len(),
                self@.program.well_formed(),
                old(self)@.program.same_frame(self@.program),
                self@.todo() <= old(self)@.todo(),
                old(self)@.done.subset_of(self@.done),
                forall|k: int, u: VarId|
                    0 <= k < args@.len() && #[trigger] args@[k]@.uses().contains(u) ==> old(
                        self,
                    )@.program.defined(u),
                forall|k: int, u: VarId|
                    0 <= k < list@.len() && #[trigger] list@[k]@.uses().contains(u) ==> self@.program.defined(u),
                old(self)@.operands(operands(args@), 0) == (
                    self@.operands(operands(args@), i as int).0,
                    operands(list@) + self@.operands(operands(args@), i as int).1,
                ),
            decreases args.len() - i,
        {
            let ghost before = self@;
            let ghost sofar = operands(list@);
            proof {
                lemma_same_frame(old(self)@.program, self@.program);
                assert forall|u: VarId| #[trigger] args@[i as int]@.uses().contains(u) implies self@.program.defined(
                    u,
                ) by {
                    assert(old(self)@.program.defined(u));
                }
            }
            let first = self.inline_simple(&args[i]);
            proof {
                lemma_same_frame_trans(old(self)@.program, before.program, self@.program);
                lemma_same_frame(before.program, self@.program);
            }
            list.push(first);
            i = i + 1;
            proof {
                let rest = self@.operands(operands(args@), i as int).1;
                assert(operands(list@) =~= sofar.push(first@));
                assert(sofar + (seq![first@] + rest) =~= operands(list@) + rest);
                assert(operands(args@)[i - 1] == args@[i - 1]@);
                assert forall|k: int, u: VarId|
                    0 <= k < list@.len() && #[trigger] list@[k]@.uses().contains(u) implies self@.program.defined(
                    u,
                ) by {
                    if k < list@.len() - 1 {
                        assert(before.program.defined(u));
                    }
                }
            }
        }
        proof {
            assert(operands(list@) + Seq::<Operand>::empty() =~= operands(list@));
        }
        list
    }

    /// Does the same for each value of a list, in order.
    pub fn inline_vars(&mut self, vars: &Vec<VarId>) -> (list: Vec<VarOrConst>)
        requires
            old(self)@.program.well_formed(),
            forall|k: int| 0 <= k < vars@.len() ==> old(self)@.program.defined(#[trigger] vars@[k]),
        ensures
            (final(self)@, operands(list@)) == old(self)@.operands(as_operands(vars@), 0),
            final(self)@.program.well_formed(),
            old(self)@.program.same_frame(final(self)@.program),
            final(self)@.todo() <= old(self)@.todo(),
            old(self)@.done.subset_of(final(self)@.done),
            forall|k: int, u: VarId|
                0 <= k < list@.len() && #[trigger] list@[k]@.uses().contains(u) ==> final(self)@.program.defined(u),
        decreases old(self)@.todo(), 2nat, 1nat,
    {
        let mut args: Vec<VarOrConst> = Vec::new();
        let mut i: usize = 0;
        while i < vars.len()
            invariant
                i <= vars.len(),
                args@.len() == i,
                forall|k: int| 0 <= k < i ==> (#[trigger] args@[k])@ == Operand::Var(vars@[k]),
            decreases vars.len() - i,
        {
            args.push(VarOrConst::Var(vars[i]));
            i = i + 1;
        }
        proof {
            assert(operands(args@) =~= as_operands(vars@));
            assert forall|k: int, u: VarId|
                0 <= k < args@.len() && #[trigger] args@[k]@.uses().contains(u) implies old(
                self,
            )@.program.defined(u) by {
                assert(u == vars@[k]);
            }
        }
        self.inline_args(&args)
    }
}

/// Every program has its own frame.
pub proof fn lemma_frame_refl(p: ProgramView)
    ensures
        p.same_frame(p),
{
}

/// Whether a list is not empty and all its operands are the same key as the first.
fn same_operands(list: &Vec<VarOrConst>) -> (r: bool)
    ensures
        r == all_same(operands(list@)),
{
    if list.len() == 0 {
        return false;
    }
    let mut i: usize = 0;
    while i < list.len()
        invariant
            i <= list.len(),
            list@.len() > 0,
            forall|k: int| 0 <= k < i ==> (#[trigger] operands(list@)[k]).same(operands(list@)[0]),
        decreases list.len() - i,
    {
        if !list[i].same_operand(&list[0]) {
            assert(!operands(list@)[i as int].same(operands(list@)[0]));
            return false;
        }
        i = i + 1;
    }
    true
}

/// The place where `var_id` is assigned in the program, if it is assigned:
/// the first such place in the order of the blocks and instructions.
pub fn find_var(program: &Program, var_id: VarId) -> (r: Option<(BlockId, usize)>)
    ensures
        match r {
            Some((b, i)) => program@.assigns(b.0 as int, i as int, var_id) && forall|c: int, j: int|
                program@.assigns(c, j, var_id) ==> b.0 < c || (b.0 == c && i <= j),
            None => !program@.defined(var_id),
        },
{
    let mut b: usize = 0;
    while b < program.blocks.len()
        invariant
            b <= program.blocks.len(),
            forall|c: int, j: int| c < b ==> !program@.assigns(c, j, var_id),
        decreases program.blocks.len() - b,
    {
        let block: &Block = &program.blocks[b];
        let mut i: usize = 0;
        while i < block.instructions.len()
            invariant
                b < program.blocks.len(),
                block == program.blocks@[b as int],
                i <= block.instructions.len(),
                forall|c: int, j: int| c < b || (c == b && j < i) ==> !program@.assigns(c, j, var_id),
            decreases block.instructions.len() - i,
        {
            if let Instruction::Assignment { id, value } = &block.instructions[i] {
                if id.0 == var_id.0 {
                    assert(program@.assigns(b as int, i as int, var_id));
                    return Some((BlockId(b), i));
                }
            }
            i = i + 1;
        }
        b = b + 1;
    }
    proof {
        if program@.defined(var_id) {
            let (c, j) = choose|c: int, j: int| program@.assigns(c, j, var_id);
            assert(!program@.assigns(c, j, var_id));
        }
    }
    None
}

/// The values that the program assigns, in order.
fn collect_ids(program: &Program) -> (ids: Vec<VarId>)
    ensures
        ids@ == assigned_ids(program@.blocks),
{
    let mut ids: Vec<VarId> = Vec::new();
    let mut b: usize = 0;
    assert(program@.blocks.take(0) =~= Seq::<BlockView>::empty());
    while b < program.blocks.len()
        invariant
            b <= program.blocks.len(),
            ids@ == assigned_ids(program@.blocks.take(b as int)),
        decreases program.blocks.len() - b,
    {
        let block: &Block = &program.blocks[b];
        let ghost before = ids@;
        let mut i: usize = 0;
        assert(block@.instructions.take(0) =~= Seq::<Step>::empty());
        assert(before + Seq::<VarId>::empty() =~= before);
        while i < block.instructions.len()
            invariant
                b < program.blocks.len(),
                block == program.blocks@[b as int],
                i <= block.instructions.len(),
                ids@ == before + assigned_in(block@.instructions.take(i as int)),
            decreases block.instructions.len() - i,
        {
            proof {
                assert(block@.instructions.take(i as int + 1).drop_last() =~= block@.instructions.take(i as int));
                assert(block@.instructions.take(i as int + 1).last() == block.instructions@[i as int]@);
            }
            if let Instruction::Assignment { id, value } = &block.instructions[i] {
                ids.push(*id);
                proof {
                    assert(ids@ =~= before + assigned_in(block@.instructions.take(i as int)).push(*id));
                }
            }
            i = i + 1;
        }
        b = b + 1;
        proof {
            assert(block@.instructions.take(block@.instructions.len() as int) =~= block@.instructions);
            assert(program@.blocks.take(b as int).drop_last() =~= program@.blocks.take(b - 1));
            assert(program@.blocks.take(b as int).last() == block@);
        }
    }
    assert(program@.blocks.take(program@.blocks.len() as int) =~= program@.blocks);
    ids
}

/// Folds every copy into its uses. The program keeps its blocks and its
/// instructions; only what the assignments compute changes.
pub fn inline(program: &mut Program)
    requires
        old(program)@.well_formed(),
    ensures
        final(program)@ == old(program)@.inlined(),
        final(program)@.well_formed(),
        old(program)@.same_frame(final(program)@),
{
    let ids: Vec<VarId> = collect_ids(program);
    let mut taken: Program = Program { blocks: Vec::new() };
    std::mem::swap(program, &mut taken);
    let mut state = InlineState::new(taken);
    let ghost start = state@;
    proof {
        lemma_frame_refl(start.program);
    }
    let mut i: usize = 0;
    while i < ids.len()
        invariant
            i <= ids.len(),
            state@.program.well_formed(),
            start.program.same_frame(state@.program),
            start.variables(ids@, 0) == state@.variables(ids@, i as int),
        decreases ids.len() - i,
    {
        let ghost before = state@;
        state.inline_variable(ids[i]);
        proof {
            lemma_same_frame_trans(start.program, before.program, state@.program);
        }
        i = i + 1;
    }
    *program = state.finish();
}

} // verus!
