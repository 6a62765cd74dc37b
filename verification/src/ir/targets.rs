//! Why every jump of a target program that is emitted goes to a line of
//! the program or to its end.
//!
//! A jump to a block that has been reached goes to where the block
//! starts. A branch is emitted before its target is known, and gets the
//! start of the block for false when that block has been emitted. A jump
//! to the end of the program is noted, and gets the length of the program
//! when the program is complete.
use vstd::prelude::*;
use crate::ir::codegen::{
    Emission,
    branch_to,
    jump_to,
    jump_unknown,
    lemma_count_none_update,
    patched,
    unknown,
};
use crate::ir::register_allocation::Registers;
use crate::ir::types::{BlockId, Operand, ProgramView, Step};
use crate::mips::instructions::{FlowControl, Instruction, Misc};
use crate::mips::types::{JumpDest, Register, RegisterOrNumber};
use crate::number::Number;

verus! {

/// Whether a number is the number of a line up to `limit`.
pub open spec fn is_line(n: Number, limit: nat) -> bool {
    exists|k: usize| k <= limit && n == #[trigger] Number::of_index(k)
}

/// Whether the instruction, if it is a jump or a branch to a number, goes
/// to a line up to `limit`.
pub open spec fn lands(instruction: Instruction, limit: nat) -> bool {
    match instruction {
        Instruction::FlowControl(FlowControl::Jump { a: JumpDest::Number(n) }) => is_line(n, limit),
        Instruction::FlowControl(FlowControl::BranchEqualZero { a, b: RegisterOrNumber::Number(n) }) => is_line(
            n,
            limit,
        ),
        _ => true,
    }
}

/// Whether every jump and branch of a program goes to a line of the
/// program or to its end.
pub open spec fn all_land(code: Seq<Instruction>) -> bool {
    forall|k: int| 0 <= k < code.len() ==> lands(#[trigger] code[k], code.len())
}

impl Emission {
    /// Whether the instruction at `k` goes to a line, or is a jump to the
    /// end of the program that is noted as one.
    pub open spec fn good(self, k: int) -> bool {
        lands(self.code[k], self.code.len()) || (self.code[k] == jump_unknown() && self.ends.contains(k as usize))
    }

    /// Every block that has started starts at a line, and every jump to
    /// the end of the program that is noted is in the program.
    pub open spec fn placed(self) -> bool {
        &&& forall|b: int|
            0 <= b < self.starts.len() ==> ((#[trigger] self.starts[b]) matches Some(p) ==> p <= self.code.len())
        &&& forall|j: int| 0 <= j < self.ends.len() ==> (#[trigger] self.ends[j]) < self.code.len()
    }

    /// Whether `other` goes on from this emission: what was emitted
    /// stays, what is new is good, and the blocks that have started stay
    /// where they start.
    pub open spec fn extended(self, other: Emission) -> bool {
        &&& self.code.len() <= other.code.len()
        &&& other.starts.len() == self.starts.len()
        &&& other.pending() <= self.pending()
        &&& other.placed()
        &&& forall|k: int| 0 <= k < self.code.len() ==> #[trigger] other.code[k] == self.code[k]
        &&& forall|k: int| self.code.len() <= k < other.code.len() ==> #[trigger] other.good(k)
        &&& forall|b: int|
            0 <= b < self.starts.len() && (#[trigger] self.starts[b]) is Some ==> other.starts[b] == self.starts[b]
        &&& self.ends.len() <= other.ends.len()
        &&& forall|j: int| 0 <= j < self.ends.len() ==> #[trigger] other.ends[j] == self.ends[j]
        &&& forall|j: int|
            self.ends.len() <= j < other.ends.len() ==> self.code.len() <= (#[trigger] other.ends[j])
                < other.code.len()
    }
}

impl Emission {
    /// Whether `other` comes after this emission: it is no shorter, has
    /// no more blocks to reach, and, unless it has more lines than can be
    /// numbered, goes on from this emission.
    pub open spec fn led_to(self, other: Emission) -> bool {
        &&& self.code.len() <= other.code.len()
        &&& other.pending() <= self.pending()
        &&& other.code.len() <= usize::MAX ==> self.extended(other)
    }
}

/// Coming after twice is coming after.
pub proof fn lemma_led_to(a: Emission, b: Emission, c: Emission)
    requires
        a.led_to(b),
        b.led_to(c),
    ensures
        a.led_to(c),
{
    if c.code.len() <= usize::MAX {
        lemma_extended(a, b, c);
    }
}

/// The number of a line is the number of a line up to any limit at or above it.
pub proof fn lemma_is_line(k: usize, limit: nat)
    requires
        k <= limit,
    ensures
        is_line(Number::of_index(k), limit),
{
}

/// A jump that goes to a line up to a limit goes to one up to any higher limit.
pub proof fn lemma_lands_higher(instruction: Instruction, limit: nat, higher: nat)
    requires
        lands(instruction, limit),
        limit <= higher,
    ensures
        lands(instruction, higher),
{
    match instruction {
        Instruction::FlowControl(FlowControl::Jump { a: JumpDest::Number(n) }) => {
            let k = choose|k: usize| k <= limit && n == #[trigger] Number::of_index(k);
            lemma_is_line(k, higher);
        },
        Instruction::FlowControl(FlowControl::BranchEqualZero { a, b: RegisterOrNumber::Number(n) }) => {
            let k = choose|k: usize| k <= limit && n == #[trigger] Number::of_index(k);
            lemma_is_line(k, higher);
        },
        _ => {},
    }
}

/// What is good in an emission is good in one that goes on from it.
proof fn lemma_good_kept(a: Emission, b: Emission, k: int)
    requires
        0 <= k < a.code.len(),
        a.code.len() <= b.code.len(),
        b.code[k] == a.code[k],
        a.good(k),
        a.ends.len() <= b.ends.len(),
        forall|j: int| 0 <= j < a.ends.len() ==> #[trigger] b.ends[j] == a.ends[j],
    ensures
        b.good(k),
{
    if lands(a.code[k], a.code.len()) {
        lemma_lands_higher(a.code[k], a.code.len(), b.code.len());
    } else {
        let j = choose|j: int| 0 <= j < a.ends.len() && a.ends[j] == k as usize;
        assert(b.ends[j] == k as usize);
    }
}

/// Going on twice is going on.
pub proof fn lemma_extended(a: Emission, b: Emission, c: Emission)
    requires
        a.extended(b),
        b.extended(c),
    ensures
        a.extended(c),
{
    assert forall|k: int| 0 <= k < a.code.len() implies #[trigger] c.code[k] == a.code[k] by {
        assert(b.code[k] == a.code[k]);
    }
    assert forall|k: int| a.code.len() <= k < c.code.len() implies #[trigger] c.good(k) by {
        if k < b.code.len() {
            assert(b.good(k));
            assert(c.code[k] == b.code[k]);
            lemma_good_kept(b, c, k);
        }
    }
    assert forall|b2: int| 0 <= b2 < a.starts.len() && (#[trigger] a.starts[b2]) is Some implies c.starts[b2]
        == a.starts[b2] by {
        assert(b.starts[b2] == a.starts[b2]);
    }
    assert forall|j: int| 0 <= j < a.ends.len() implies #[trigger] c.ends[j] == a.ends[j] by {
        assert(b.ends[j] == a.ends[j]);
    }
    assert forall|j: int| a.ends.len() <= j < c.ends.len() implies a.code.len() <= (#[trigger] c.ends[j])
        < c.code.len() by {
        if j < b.ends.len() {
            assert(c.ends[j] == b.ends[j]);
        }
    }
}

/// An instruction that goes to a line can be emitted.
pub proof fn lemma_push(s: Emission, instruction: Instruction)
    requires
        s.placed(),
        lands(instruction, s.code.len() + 1),
    ensures
        s.extended(s.push(instruction)),
        s.led_to(s.push(instruction)),
{
    let t = s.push(instruction);
    assert forall|b: int| 0 <= b < t.starts.len() implies ((#[trigger] t.starts[b]) matches Some(p) ==> p
        <= t.code.len()) by {
        assert(s.starts[b] matches Some(p) ==> p <= s.code.len());
    }
}

/// Emitting a block goes on from the emission.
pub proof fn lemma_block(s: Emission, p: ProgramView, registers: Registers, b: BlockId)
    requires
        s.placed(),
    ensures
        s.block(p, registers, b) matches Ok(t) ==> s.led_to(t),
    decreases s.pending(), 0nat, 0nat,
{
    if b.0 < s.starts.len() {
        match s.starts[b.0 as int] {
            Some(position) => {
                lemma_is_line(position, s.code.len() + 1);
                lemma_push(s, jump_to(position));
            },
            None => {
                let started = Emission { starts: s.starts.update(b.0 as int, Some(s.code.len() as usize)), ..s };
                lemma_count_none_update(s.starts, b.0 as int, s.code.len() as usize);
                assert(started.placed()) by {
                    assert forall|x: int| 0 <= x < started.starts.len() implies ((#[trigger] started.starts[x]) matches Some(
                        q,
                    ) ==> q <= started.code.len()) by {
                        if x != b.0 {
                            assert(s.starts[x] matches Some(q) ==> q <= s.code.len());
                        }
                    }
                }
                lemma_steps(started, p, registers, b, 0);
                if let Ok(t) = started.steps(p, registers, b, 0) {
                    if t.code.len() <= usize::MAX {
                        assert(s.extended(t)) by {
                            assert forall|x: int| 0 <= x < s.starts.len() && (#[trigger] s.starts[x]) is Some implies t.starts[x]
                                == s.starts[x] by {
                                assert(started.starts[x] == s.starts[x]);
                            }
                        }
                    }
                }
            },
        }
    }
}

/// Emitting the instructions of a block goes on from the emission.
pub proof fn lemma_steps(s: Emission, p: ProgramView, registers: Registers, b: BlockId, i: int)
    requires
        s.placed(),
    ensures
        s.steps(p, registers, b, i) matches Ok(t) ==> s.led_to(t),
    decreases s.pending(), 1nat, p.blocks[b.0 as int].instructions.len() - i,
{
    let block = p.blocks[b.0 as int];
    if i < 0 {
    } else if i >= block.instructions.len() {
        if block.next.len() >= 2 {
        } else if block.next.len() == 1 {
            lemma_block(s, p, registers, block.next[0]);
        } else {
            let t = Emission {
                code: s.code.push(jump_unknown()),
                ends: s.ends.push(s.code.len() as usize),
                ..s
            };
            if t.code.len() <= usize::MAX {
                assert(t.ends[s.ends.len() as int] == s.code.len() as usize);
                assert(t.ends.contains(s.code.len() as usize));
                assert(t.good(s.code.len() as int));
                assert forall|x: int| 0 <= x < t.starts.len() implies ((#[trigger] t.starts[x]) matches Some(q)
                    ==> q <= t.code.len()) by {
                    assert(s.starts[x] matches Some(q) ==> q <= s.code.len());
                }
            }
        }
    } else {
        match block.instructions[i] {
            Step::Assignment { id, value } => {
                match registers.assignment(id, value) {
                    Err(e) => {},
                    Ok(Some(instruction)) => {
                        lemma_assignment_lands(registers, id, value, s.code.len() + 1);
                        lemma_push(s, instruction);
                        lemma_steps(s.push(instruction), p, registers, b, i + 1);
                        if let Ok(t) = s.push(instruction).steps(p, registers, b, i + 1) {
                            lemma_led_to(s, s.push(instruction), t);
                        }
                    },
                    Ok(None) => {
                        lemma_steps(s, p, registers, b, i + 1);
                    },
                }
            },
            Step::Branch { cond, true_block, false_block } => {
                lemma_branch(s, p, registers, cond, true_block, false_block);
            },
            Step::Yield => {
                let instruction = Instruction::Misc(Misc::Yield);
                lemma_push(s, instruction);
                lemma_steps(s.push(instruction), p, registers, b, i + 1);
                if let Ok(t) = s.push(instruction).steps(p, registers, b, i + 1) {
                    lemma_led_to(s, s.push(instruction), t);
                }
            },
            Step::Return(_) => {
                let instruction = Instruction::FlowControl(FlowControl::Jump { a: JumpDest::Register(Register::Ra) });
                lemma_push(s, instruction);
                lemma_steps(s.push(instruction), p, registers, b, i + 1);
                if let Ok(t) = s.push(instruction).steps(p, registers, b, i + 1) {
                    lemma_led_to(s, s.push(instruction), t);
                }
            },
        }
    }
}

/// The instruction of an assignment is no jump to a number.
pub proof fn lemma_assignment_lands(registers: Registers, id: crate::ir::types::VarId, value: crate::ir::types::Value, limit: nat)
    ensures
        registers.assignment(id, value) matches Ok(Some(instruction)) ==> lands(instruction, limit),
{
}

/// Emitting a branch goes on from the emission.
pub proof fn lemma_branch(
    s: Emission,
    p: ProgramView,
    registers: Registers,
    cond: Operand,
    true_block: BlockId,
    false_block: BlockId,
)
    requires
        s.placed(),
    ensures
        s.branch(p, registers, cond, true_block, false_block) matches Ok(t) ==> s.led_to(t),
    decreases s.pending(), 0nat, 1nat,
{
    if let Ok(a) = registers.operand(cond) {
        let at = s.code.len() as int;
        let s0 = s.push(branch_to(a, unknown()));
        assert(s0.placed()) by {
            assert forall|x: int| 0 <= x < s0.starts.len() implies ((#[trigger] s0.starts[x]) matches Some(q) ==> q
                <= s0.code.len()) by {
                assert(s.starts[x] matches Some(q) ==> q <= s.code.len());
            }
        }
        lemma_block(s0, p, registers, true_block);
        if let Ok(s1) = s0.block(p, registers, true_block) {
            lemma_placed_after(s0, p, registers, true_block);
            lemma_block(s1, p, registers, false_block);
            if let Ok(s2) = s1.block(p, registers, false_block) {
                if let Some(target) = s2.starts[false_block.0 as int] {
                    let t = Emission { code: s2.code.update(at, branch_to(a, Number::of_index(target))), ..s2 };
                    if t.code.len() <= usize::MAX {
                        lemma_extended(s0, s1, s2);
                        lemma_is_line(target, t.code.len());
                        assert forall|k: int| s.code.len() <= k < t.code.len() implies #[trigger] t.good(k) by {
                            if k != at {
                                assert(s2.good(k));
                            }
                        }
                        assert forall|k: int| 0 <= k < s.code.len() implies #[trigger] t.code[k] == s.code[k] by {
                            assert(s2.code[k] == s0.code[k]);
                        }
                        assert forall|x: int| 0 <= x < s.starts.len() && (#[trigger] s.starts[x]) is Some implies t.starts[x]
                            == s.starts[x] by {
                            assert(s2.starts[x] == s0.starts[x]);
                        }
                        assert forall|j: int| s.ends.len() <= j < t.ends.len() implies s.code.len() <= (
                        #[trigger] t.ends[j]) < t.code.len() by {
                            assert(s0.code.len() <= s2.ends[j]);
                        }
                        assert(t.placed()) by {
                            assert forall|x: int| 0 <= x < t.starts.len() implies ((#[trigger] t.starts[x]) matches Some(
                                q,
                            ) ==> q <= t.code.len()) by {
                                assert(s2.starts[x] matches Some(q) ==> q <= s2.code.len());
                            }
                        }
                    }
                }
            }
        }
    }
}

/// After a block has been emitted, every block that has started starts at a line.
pub proof fn lemma_placed_after(s: Emission, p: ProgramView, registers: Registers, b: BlockId)
    requires
        s.placed(),
    ensures
        s.block(p, registers, b) matches Ok(t) ==> t.placed(),
    decreases s.pending(), 0nat, 0nat,
{
    if b.0 < s.starts.len() {
        match s.starts[b.0 as int] {
            Some(position) => {
                let t = s.push(jump_to(position));
                assert forall|x: int| 0 <= x < t.starts.len() implies ((#[trigger] t.starts[x]) matches Some(q) ==> q
                    <= t.code.len()) by {
                    assert(s.starts[x] matches Some(q) ==> q <= s.code.len());
                }
            },
            None => {
                let started = Emission { starts: s.starts.update(b.0 as int, Some(s.code.len() as usize)), ..s };
                lemma_count_none_update(s.starts, b.0 as int, s.code.len() as usize);
                assert(started.placed()) by {
                    assert forall|x: int| 0 <= x < started.starts.len() implies ((#[trigger] started.starts[x]) matches Some(
                        q,
                    ) ==> q <= started.code.len()) by {
                        if x != b.0 {
                            assert(s.starts[x] matches Some(q) ==> q <= s.code.len());
                        }
                    }
                }
                lemma_placed_steps(started, p, registers, b, 0);
            },
        }
    }
}

/// After the instructions of a block have been emitted, every block that
/// has started starts at a line.
pub proof fn lemma_placed_steps(s: Emission, p: ProgramView, registers: Registers, b: BlockId, i: int)
    requires
        s.placed(),
    ensures
        s.steps(p, registers, b, i) matches Ok(t) ==> t.placed(),
    decreases s.pending(), 1nat, p.blocks[b.0 as int].instructions.len() - i,
{
    let block = p.blocks[b.0 as int];
    if i < 0 {
    } else if i >= block.instructions.len() {
        if block.next.len() >= 2 {
        } else if block.next.len() == 1 {
            lemma_placed_after(s, p, registers, block.next[0]);
        } else {
            let t = Emission {
                code: s.code.push(jump_unknown()),
                ends: s.ends.push(s.code.len() as usize),
                ..s
            };
            assert forall|x: int| 0 <= x < t.starts.len() implies ((#[trigger] t.starts[x]) matches Some(q) ==> q
                <= t.code.len()) by {
                assert(s.starts[x] matches Some(q) ==> q <= s.code.len());
            }
        }
    } else {
        match block.instructions[i] {
            Step::Assignment { id, value } => {
                match registers.assignment(id, value) {
                    Err(e) => {},
                    Ok(Some(instruction)) => {
                        lemma_placed_push(s, instruction);
                        lemma_placed_steps(s.push(instruction), p, registers, b, i + 1);
                    },
                    Ok(None) => {
                        lemma_placed_steps(s, p, registers, b, i + 1);
                    },
                }
            },
            Step::Branch { cond, true_block, false_block } => {
                lemma_placed_branch(s, p, registers, cond, true_block, false_block);
            },
            Step::Yield => {
                let instruction = Instruction::Misc(Misc::Yield);
                lemma_placed_push(s, instruction);
                lemma_placed_steps(s.push(instruction), p, registers, b, i + 1);
            },
            Step::Return(_) => {
                let instruction = Instruction::FlowControl(FlowControl::Jump { a: JumpDest::Register(Register::Ra) });
                lemma_placed_push(s, instruction);
                lemma_placed_steps(s.push(instruction), p, registers, b, i + 1);
            },
        }
    }
}

/// After an instruction has been emitted, every block that has started
/// starts at a line.
proof fn lemma_placed_push(s: Emission, instruction: Instruction)
    requires
        s.placed(),
    ensures
        s.push(instruction).placed(),
{
    let t = s.push(instruction);
    assert forall|x: int| 0 <= x < t.starts.len() implies ((#[trigger] t.starts[x]) matches Some(q) ==> q
        <= t.code.len()) by {
        assert(s.starts[x] matches Some(q) ==> q <= s.code.len());
    }
}

/// After a branch has been emitted, every block that has started starts at a line.
pub proof fn lemma_placed_branch(
    s: Emission,
    p: ProgramView,
    registers: Registers,
    cond: Operand,
    true_block: BlockId,
    false_block: BlockId,
)
    requires
        s.placed(),
    ensures
        s.branch(p, registers, cond, true_block, false_block) matches Ok(t) ==> t.placed(),
    decreases s.pending(), 0nat, 1nat,
{
    if let Ok(a) = registers.operand(cond) {
        let at = s.code.len() as int;
        let s0 = s.push(branch_to(a, unknown()));
        lemma_placed_push(s, branch_to(a, unknown()));
        lemma_placed_after(s0, p, registers, true_block);
        lemma_block(s0, p, registers, true_block);
        if let Ok(s1) = s0.block(p, registers, true_block) {
            lemma_placed_after(s1, p, registers, false_block);
            lemma_block(s1, p, registers, false_block);
            if let Ok(s2) = s1.block(p, registers, false_block) {
                if let Some(target) = s2.starts[false_block.0 as int] {
                    let t = Emission { code: s2.code.update(at, branch_to(a, Number::of_index(target))), ..s2 };
                    assert forall|x: int| 0 <= x < t.starts.len() implies ((#[trigger] t.starts[x]) matches Some(
                        q,
                    ) ==> q <= t.code.len()) by {
                        assert(s2.starts[x] matches Some(q) ==> q <= s2.code.len());
                    }
                    assert forall|j: int| 0 <= j < t.ends.len() implies (#[trigger] t.ends[j]) < t.code.len() by {
                        assert(s2.ends[j] < s2.code.len());
                    }
                }
            }
        }
    }
}

/// What the code is after the jumps to the end have got their target.
pub proof fn lemma_patched(code: Seq<Instruction>, ends: Seq<usize>, from: int)
    requires
        0 <= from,
        forall|j: int| from <= j < ends.len() ==> (#[trigger] ends[j]) < code.len(),
    ensures
        patched(code, ends, from).len() == code.len(),
        forall|k: int|
            0 <= k < code.len() ==> (#[trigger] patched(code, ends, from)[k]) == if exists|j: int|
                from <= j < ends.len() && ends[j] == k {
                jump_to(code.len() as usize)
            } else {
                code[k]
            },
    decreases ends.len() - from,
{
    if from < ends.len() {
        let next = code.update(ends[from] as int, jump_to(code.len() as usize));
        lemma_patched(next, ends, from + 1);
        assert forall|k: int| 0 <= k < code.len() implies (#[trigger] patched(code, ends, from)[k]) == if exists|
            j: int,
        |
            from <= j < ends.len() && ends[j] == k {
            jump_to(code.len() as usize)
        } else {
            code[k]
        } by {
            if exists|j: int| from + 1 <= j < ends.len() && ends[j] == k {
                let j = choose|j: int| from + 1 <= j < ends.len() && ends[j] == k;
                assert(from <= j < ends.len() && ends[j] == k);
            } else if ends[from] == k {
            } else {
                if exists|j: int| from <= j < ends.len() && ends[j] == k {
                    let j = choose|j: int| from <= j < ends.len() && ends[j] == k;
                    assert(j >= from + 1);
                }
            }
        }
    }
}

/// In every target program that is emitted, every jump and every branch
/// to a number goes to a line of the program or to its end, as long as
/// the lines of the program can be numbered.
pub proof fn lemma_emitted_lands(p: ProgramView, registers: Registers)
    ensures
        p.emitted(registers) matches Ok(code) ==> code.len() <= usize::MAX ==> all_land(code),
{
    let start = Emission::empty(p.blocks.len());
    assert(start.placed());
    lemma_block(start, p, registers, BlockId(0));
    if let Ok(s) = start.block(p, registers, BlockId(0)) {
        lemma_placed_after(start, p, registers, BlockId(0));
        lemma_patched_len(s.code, s.ends, 0);
        if s.code.len() <= usize::MAX {
        assert forall|j: int| 0 <= j < s.ends.len() implies (#[trigger] s.ends[j]) < s.code.len() by {}
        lemma_patched(s.code, s.ends, 0);
        let code = patched(s.code, s.ends, 0);
        assert forall|k: int| 0 <= k < code.len() implies lands(#[trigger] code[k], code.len()) by {
            assert(s.good(k));
            if exists|j: int| 0 <= j < s.ends.len() && s.ends[j] == k {
                lemma_is_line(s.code.len() as usize, code.len());
            } else {
                if !lands(s.code[k], s.code.len()) {
                    let j = choose|j: int| 0 <= j < s.ends.len() && s.ends[j] == k as usize;
                    assert(s.ends[j] == k);
                }
            }
        }
        }
    }
}

/// Giving the jumps to the end their target changes no length.
pub proof fn lemma_patched_len(code: Seq<Instruction>, ends: Seq<usize>, from: int)
    requires
        0 <= from,
        forall|j: int| from <= j < ends.len() ==> (#[trigger] ends[j]) < code.len(),
    ensures
        patched(code, ends, from).len() == code.len(),
    decreases ends.len() - from,
{
    if from < ends.len() {
        lemma_patched_len(code.update(ends[from] as int, jump_to(code.len() as usize)), ends, from + 1);
    }
}

} // verus!
