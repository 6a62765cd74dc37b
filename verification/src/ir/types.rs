//! The intermediate representation: blocks of instructions over values that
//! are each assigned once.
use vstd::prelude::*;
use crate::ast::BinaryOpcode;
use crate::number::Number;

verus! {

/// Names a value of the program. Each is assigned by one instruction.
#[derive(Debug, Copy, Clone, Hash, PartialEq, Eq, PartialOrd, Ord, Structural)]
pub struct VarId(pub usize);

/// Names a block by its position in the program.
#[derive(Debug, Copy, Clone, Hash, PartialEq, Eq, Structural)]
pub struct BlockId(pub usize);

/// An operand: a value of the program, the name of a device or of a device
/// attribute, or a literal number.
#[derive(Debug, Clone, PartialEq, Eq, Hash)]
pub enum VarOrConst {
    Var(VarId),
    External(String),
    Const(Number),
}

/// What an assignment computes.
#[derive(Debug, Clone)]
pub enum VarValue {
    /// A copy of an operand.
    Single(VarOrConst),
    /// The value that arrives from whichever predecessor ran.
    Phi(Vec<VarId>),
    BinaryOp { lhs: VarOrConst, op: BinaryOpcode, rhs: VarOrConst },
    /// A call of a primitive (`store`, `load`) or of a function.
    Call { name: String, args: Vec<VarOrConst> },
}

/// An instruction of a block.
#[derive(Debug, Clone)]
pub enum Instruction {
    Assignment { id: VarId, value: VarValue },
    Branch {
        /// Zero for false, anything else for true.
        cond: VarOrConst,
        /// Where control goes when `cond` is true.
        true_block: BlockId,
        /// Where control goes when `cond` is false.
        false_block: BlockId,
    },
    Yield,
    Return(VarOrConst),
}

/// A straight run of instructions with the blocks before and after it.
#[derive(Debug, Default)]
pub struct Block {
    pub instructions: Vec<Instruction>,
    pub prev: Vec<BlockId>,
    pub next: Vec<BlockId>,
}

/// A program: its blocks, the first of which is the entry.
#[derive(Debug, Default)]
pub struct Program {
    pub blocks: Vec<Block>,
}

/// An operand as a mathematical value.
pub enum Operand {
    Var(VarId),
    External(Seq<char>),
    Const(Number),
}

/// What an assignment computes, as a mathematical value.
pub enum Value {
    Single(Operand),
    Phi(Seq<VarId>),
    BinaryOp { lhs: Operand, op: BinaryOpcode, rhs: Operand },
    Call { name: Seq<char>, args: Seq<Operand> },
}

/// An instruction as a mathematical value.
pub enum Step {
    Assignment { id: VarId, value: Value },
    Branch { cond: Operand, true_block: BlockId, false_block: BlockId },
    Yield,
    Return(Operand),
}

/// A block as a mathematical value.
pub struct BlockView {
    pub instructions: Seq<Step>,
    pub prev: Seq<BlockId>,
    pub next: Seq<BlockId>,
}

/// A program as a mathematical value.
pub struct ProgramView {
    pub blocks: Seq<BlockView>,
}

impl View for VarOrConst {
    type V = Operand;

    open spec fn view(&self) -> Operand {
        match self {
            VarOrConst::Var(id) => Operand::Var(*id),
            VarOrConst::External(name) => Operand::External(name@),
            VarOrConst::Const(x) => Operand::Const(*x),
        }
    }
}

/// The operands of a list, each as a mathematical value.
pub open spec fn operands(args: Seq<VarOrConst>) -> Seq<Operand> {
    Seq::new(args.len(), |i: int| args[i]@)
}

impl View for VarValue {
    type V = Value;

    open spec fn view(&self) -> Value {
        match self {
            VarValue::Single(x) => Value::Single(x@),
            VarValue::Phi(args) => Value::Phi(args@),
            VarValue::BinaryOp { lhs, op, rhs } => Value::BinaryOp { lhs: lhs@, op: *op, rhs: rhs@ },
            VarValue::Call { name, args } => Value::Call { name: name@, args: operands(args@) },
        }
    }
}

impl View for Instruction {
    type V = Step;

    open spec fn view(&self) -> Step {
        match self {
            Instruction::Assignment { id, value } => Step::Assignment { id: *id, value: value@ },
            Instruction::Branch { cond, true_block, false_block } => Step::Branch {
                cond: cond@,
                true_block: *true_block,
                false_block: *false_block,
            },
            Instruction::Yield => Step::Yield,
            Instruction::Return(x) => Step::Return(x@),
        }
    }
}

/// The instructions of a list, each as a mathematical value.
pub open spec fn steps(instructions: Seq<Instruction>) -> Seq<Step> {
    Seq::new(instructions.len(), |i: int| instructions[i]@)
}

impl View for Block {
    type V = BlockView;

    open spec fn view(&self) -> BlockView {
        BlockView { instructions: steps(self.instructions@), prev: self.prev@, next: self.next@ }
    }
}

impl View for Program {
    type V = ProgramView;

    open spec fn view(&self) -> ProgramView {
        ProgramView { blocks: Seq::new(self.blocks@.len(), |i: int| self.blocks@[i]@) }
    }
}

impl Operand {
    /// The values that the operand reads: itself, if it is one.
    pub open spec fn uses(self) -> Set<VarId> {
        match self {
            Operand::Var(id) => set![id],
            _ => Set::empty(),
        }
    }

    /// Whether two operands are one key: the same value, the same name, or
    /// numbers that are the same key.
    pub open spec fn same(self, other: Operand) -> bool {
        match (self, other) {
            (Operand::Var(a), Operand::Var(b)) => a == b,
            (Operand::External(a), Operand::External(b)) => a == b,
            (Operand::Const(a), Operand::Const(b)) => a.same(b),
            _ => false,
        }
    }
}

/// The values that a list of operands reads.
pub open spec fn operand_uses(args: Seq<Operand>) -> Set<VarId> {
    Set::new(|v: VarId| exists|i: int| 0 <= i < args.len() && #[trigger] args[i] == Operand::Var(v))
}

impl Value {
    /// The values that computing this reads.
    pub open spec fn uses(self) -> Set<VarId> {
        match self {
            Value::Single(x) => x.uses(),
            Value::Phi(args) => args.to_set(),
            Value::BinaryOp { lhs, op, rhs } => lhs.uses().union(rhs.uses()),
            Value::Call { name, args } => operand_uses(args),
        }
    }
}

impl Step {
    /// The value that the instruction assigns, if it assigns one.
    pub open spec fn defines(self) -> Option<VarId> {
        match self {
            Step::Assignment { id, value } => Some(id),
            _ => None,
        }
    }

    /// The values that the instruction reads.
    pub open spec fn uses(self) -> Set<VarId> {
        match self {
            Step::Assignment { id, value } => value.uses(),
            Step::Branch { cond, true_block, false_block } => cond.uses(),
            Step::Yield => Set::empty(),
            Step::Return(x) => x.uses(),
        }
    }

    /// The blocks that the instruction names.
    pub open spec fn targets_below(self, n: int) -> bool {
        match self {
            Step::Branch { cond, true_block, false_block } => true_block.0 < n && false_block.0 < n,
            _ => true,
        }
    }
}

impl ProgramView {
    /// Whether `(b, i)` is the place of an instruction.
    pub open spec fn has(self, b: int, i: int) -> bool {
        0 <= b < self.blocks.len() && 0 <= i < self.blocks[b].instructions.len()
    }

    /// The instruction at a place.
    pub open spec fn at(self, b: int, i: int) -> Step
        recommends
            self.has(b, i),
    {
        self.blocks[b].instructions[i]
    }

    /// Whether the instruction at `(b, i)` assigns `v`.
    pub open spec fn assigns(self, b: int, i: int, v: VarId) -> bool {
        self.has(b, i) && self.at(b, i).defines() == Some(v)
    }

    /// Whether the instruction at `(b, i)` reads `v`.
    pub open spec fn reads(self, b: int, i: int, v: VarId) -> bool {
        self.has(b, i) && self.at(b, i).uses().contains(v)
    }

    /// Whether some instruction assigns `v`.
    pub open spec fn defined(self, v: VarId) -> bool {
        exists|b: int, i: int| self.assigns(b, i, v)
    }

    /// No value is assigned by two instructions.
    pub open spec fn single_assignment(self) -> bool {
        forall|b1: int, i1: int, b2: int, i2: int, v: VarId|
            #![trigger self.assigns(b1, i1, v), self.assigns(b2, i2, v)]
            self.assigns(b1, i1, v) && self.assigns(b2, i2, v) ==> b1 == b2 && i1 == i2
    }

    /// Every value that an instruction reads is assigned by some instruction.
    pub open spec fn uses_defined(self) -> bool {
        forall|b: int, i: int, v: VarId| #[trigger] self.reads(b, i, v) ==> self.defined(v)
    }

    /// Every block that a block or a branch names is a block of the program.
    pub open spec fn blocks_in_range(self) -> bool {
        &&& forall|b: int, k: int|
            0 <= b < self.blocks.len() && 0 <= k < self.blocks[b].next.len()
                ==> (#[trigger] self.blocks[b].next[k]).0 < self.blocks.len()
        &&& forall|b: int, k: int|
            0 <= b < self.blocks.len() && 0 <= k < self.blocks[b].prev.len()
                ==> (#[trigger] self.blocks[b].prev[k]).0 < self.blocks.len()
        &&& forall|b: int, i: int| #[trigger]
            self.has(b, i) ==> self.at(b, i).targets_below(self.blocks.len() as int)
    }

    /// The program is in static single assignment form and closed: every
    /// value is assigned once, every value read is assigned, and every block
    /// named exists.
    pub open spec fn well_formed(self) -> bool {
        &&& self.single_assignment()
        &&& self.uses_defined()
        &&& self.blocks_in_range()
    }
}

impl VarOrConst {
    /// The name, if the operand is the name of a device or an attribute.
    pub fn external(&self) -> (r: Option<&String>)
        ensures
            match r {
                Some(name) => self@ == Operand::External(name@),
                None => !(self@ is External),
            },
    {
        match self {
            VarOrConst::External(s) => Some(s),
            _ => None,
        }
    }

    /// The values that the operand reads.
    pub fn used_vars(&self) -> (r: Vec<VarId>)
        ensures
            r@.to_set() == self@.uses(),
            r@.no_duplicates(),
    {
        let mut ret: Vec<VarId> = Vec::new();
        if let VarOrConst::Var(id) = self {
            ret.push(*id);
            proof {
                assert(ret@[0] == *id);
                assert(ret@.to_set() =~= set![*id]);
            }
        } else {
            proof {
                assert(ret@.to_set() =~= Set::<VarId>::empty());
            }
        }
        ret
    }

    /// A copy of the operand.
    pub fn duplicate(&self) -> (r: VarOrConst)
        ensures
            r@ == self@,
    {
        match self {
            VarOrConst::Var(id) => VarOrConst::Var(*id),
            VarOrConst::External(name) => VarOrConst::External(name.clone()),
            VarOrConst::Const(x) => VarOrConst::Const(*x),
        }
    }

    /// Whether two operands are one key.
    pub fn same_operand(&self, other: &VarOrConst) -> (r: bool)
        ensures
            r == self@.same(other@),
    {
        match (self, other) {
            (VarOrConst::Var(a), VarOrConst::Var(b)) => a.0 == b.0,
            (VarOrConst::External(a), VarOrConst::External(b)) => *a == *b,
            (VarOrConst::Const(a), VarOrConst::Const(b)) => a.same_number(b),
            _ => false,
        }
    }
}

/// A copy of a list of values.
pub fn copy_vars(vars: &Vec<VarId>) -> (r: Vec<VarId>)
    ensures
        r@ == vars@,
{
    let mut r: Vec<VarId> = Vec::new();
    let mut i: usize = 0;
    while i < vars.len()
        invariant
            i <= vars.len(),
            r@ == vars@.take(i as int),
        decreases vars.len() - i,
    {
        r.push(vars[i]);
        i = i + 1;
        assert(r@ =~= vars@.take(i as int));
    }
    assert(vars@.take(vars@.len() as int) =~= vars@);
    r
}

/// A copy of a list of operands.
pub fn copy_operands(args: &Vec<VarOrConst>) -> (r: Vec<VarOrConst>)
    ensures
        operands(r@) == operands(args@),
{
    let mut r: Vec<VarOrConst> = Vec::new();
    let mut i: usize = 0;
    while i < args.len()
        invariant
            i <= args.len(),
            r@.len() == i,
            forall|k: int| 0 <= k < i ==> (#[trigger] r@[k])@ == args@[k]@,
        decreases args.len() - i,
    {
        r.push(args[i].duplicate());
        i = i + 1;
    }
    assert(operands(r@) =~= operands(args@));
    r
}

impl VarValue {
    /// A copy of the value.
    pub fn duplicate(&self) -> (r: VarValue)
        ensures
            r@ == self@,
    {
        match self {
            VarValue::Single(x) => VarValue::Single(x.duplicate()),
            VarValue::Phi(args) => VarValue::Phi(copy_vars(args)),
            VarValue::BinaryOp { lhs, op, rhs } => VarValue::BinaryOp {
                lhs: lhs.duplicate(),
                op: *op,
                rhs: rhs.duplicate(),
            },
            VarValue::Call { name, args } => VarValue::Call { name: name.clone(), args: copy_operands(args) },
        }
    }

    /// The values that computing this reads, each once.
    pub fn used_vars(&self) -> (r: Vec<VarId>)
        ensures
            r@.to_set() == self@.uses(),
            r@.no_duplicates(),
    {
        let mut ret: Vec<VarId> = Vec::new();
        match self {
            VarValue::Single(x) => {
                if let VarOrConst::Var(id) = x {
                    add_var(&mut ret, *id);
                }
                assert(ret@.to_set() =~= self@.uses());
            },
            VarValue::Phi(args) => {
                let mut i: usize = 0;
                assert(ret@.to_set() =~= args@.take(0).to_set());
                while i < args.len()
                    invariant
                        i <= args.len(),
                        ret@.no_duplicates(),
                        ret@.to_set() == args@.take(i as int).to_set(),
                    decreases args.len() - i,
                {
                    let ghost before = ret@.to_set();
                    add_var(&mut ret, args[i]);
                    i = i + 1;
                    proof {
                        assert(args@.take(i as int) =~= args@.take(i - 1).push(args@[i - 1]));
                        lemma_push_to_set(args@.take(i - 1), args@[i - 1]);
                    }
                }
                assert(args@.take(args@.len() as int) =~= args@);
            },
            VarValue::BinaryOp { lhs, op, rhs } => {
                if let VarOrConst::Var(id) = lhs {
                    add_var(&mut ret, *id);
                }
                if let VarOrConst::Var(id) = rhs {
                    add_var(&mut ret, *id);
                }
                assert(ret@.to_set() =~= self@.uses());
            },
            VarValue::Call { name, args } => {
                let mut i: usize = 0;
                assert(ret@.to_set() =~= operand_uses(operands(args@).take(0)));
                while i < args.len()
                    invariant
                        i <= args.len(),
                        ret@.no_duplicates(),
                        ret@.to_set() == operand_uses(operands(args@).take(i as int)),
                    decreases args.len() - i,
                {
                    let ghost before = ret@.to_set();
                    if let VarOrConst::Var(id) = &args[i] {
                        add_var(&mut ret, *id);
                        assert(ret@.to_set() =~= before.union(args@[i as int]@.uses()));
                    } else {
                        assert(ret@.to_set() =~= before.union(args@[i as int]@.uses()));
                    }
                    i = i + 1;
                    proof {
                        lemma_operand_uses_push(operands(args@).take(i - 1), operands(args@)[i - 1]);
                        assert(operands(args@).take(i as int) =~= operands(args@).take(i - 1).push(
                            operands(args@)[i - 1],
                        ));
                    }
                }
                assert(operands(args@).take(args@.len() as int) =~= operands(args@));
            },
        }
        ret
    }
}

/// Adds a value to a list in which nothing stands twice, unless it is there.
fn add_var(list: &mut Vec<VarId>, id: VarId)
    requires
        old(list)@.no_duplicates(),
    ensures
        final(list)@.no_duplicates(),
        final(list)@.to_set() == old(list)@.to_set().insert(id),
{
    let mut i: usize = 0;
    while i < list.len()
        invariant
            i <= list.len(),
            list@ == old(list)@,
            list@.no_duplicates(),
            forall|k: int| 0 <= k < i ==> list@[k] != id,
        decreases list.len() - i,
    {
        if list[i].0 == id.0 {
            assert(list@.contains(id));
            assert(list@.to_set() =~= list@.to_set().insert(id));
            return ;
        }
        i = i + 1;
    }
    list.push(id);
    proof {
        lemma_push_to_set(old(list)@, id);
        assert forall|a: int, b: int| 0 <= a < list@.len() && 0 <= b < list@.len() && a != b implies list@[a]
            != list@[b] by {
            if a < old(list)@.len() && b < old(list)@.len() {
                assert(old(list)@[a] != old(list)@[b]);
            }
        }
    }
}

/// The values of a list with one more are the values of the list and that one.
pub proof fn lemma_push_to_set(s: Seq<VarId>, id: VarId)
    ensures
        s.push(id).to_set() == s.to_set().insert(id),
{
    let t = s.push(id);
    assert forall|v: VarId| t.to_set().contains(v) <==> s.to_set().insert(id).contains(v) by {
        if t.contains(v) {
            let k = choose|k: int| 0 <= k < t.len() && t[k] == v;
            if k < s.len() {
                assert(s[k] == v);
            }
        }
        if s.contains(v) {
            let k = choose|k: int| 0 <= k < s.len() && s[k] == v;
            assert(t[k] == v);
        }
        if v == id {
            assert(t[s.len() as int] == v);
        }
    }
    assert(t.to_set() =~= s.to_set().insert(id));
}

/// What a list of operands with one more reads.
pub proof fn lemma_operand_uses_push(s: Seq<Operand>, x: Operand)
    ensures
        operand_uses(s.push(x)) == operand_uses(s).union(x.uses()),
{
    let t = s.push(x);
    assert forall|v: VarId| operand_uses(t).contains(v) <==> operand_uses(s).union(x.uses()).contains(v) by {
        if operand_uses(t).contains(v) {
            let k = choose|k: int| 0 <= k < t.len() && #[trigger] t[k] == Operand::Var(v);
            if k < s.len() {
                assert(s[k] == Operand::Var(v));
            }
        }
        if operand_uses(s).contains(v) {
            let k = choose|k: int| 0 <= k < s.len() && #[trigger] s[k] == Operand::Var(v);
            assert(t[k] == Operand::Var(v));
        }
        if x.uses().contains(v) {
            assert(t[s.len() as int] == Operand::Var(v));
        }
    }
    assert(operand_uses(t) =~= operand_uses(s).union(x.uses()));
}

} // verus!
