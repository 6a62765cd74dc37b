//! The builder of the intermediate representation.
use vstd::prelude::*;
use crate::ast;
use crate::ast::{Expr, IfStatement, Statement};
use crate::error::Error;
use crate::ir::model::{
    Builder,
    Defined,
    EXTERNALS,
    lemma_connect_inv,
    lemma_emit_inv,
    lemma_new_block_inv,
    lemma_replace_inv,
    Named,
    Open,
    assigned,
    defined_const,
    external,
    find_const,
    find_def,
    known_from,
    lemma_count_false_update,
    lemma_find_def,
    lemma_missing_assigned,
    lookup,
    without_var,
};
use crate::ir::ssa::lemma_build_well_formed;
use crate::ir::types::{
    Block,
    BlockId,
    Instruction,
    Operand,
    Program,
    Step,
    Value,
    VarId,
    VarOrConst,
    VarValue,
    operands,
};

verus! {

/// The value that a name has at the end of a block.
struct Definition {
    name: String,
    block: BlockId,
    var: VarId,
}

/// A named constant.
struct Constant {
    name: String,
    value: VarOrConst,
}

/// A phi that waits for its block to be sealed.
struct Unresolved {
    name: String,
    var: VarId,
    index: usize,
}

/// The state of the construction.
struct State {
    defs: Vec<Definition>,
    consts: Vec<Constant>,
    next_var: VarId,
    overflow: bool,
    program: Program,
    sealed_blocks: Vec<bool>,
    unresolved_phis: Vec<Vec<Unresolved>>,
}

spec fn defs_view(defs: Seq<Definition>) -> Seq<Defined> {
    Seq::new(defs.len(), |i: int| Defined { name: defs[i].name@, block: defs[i].block, var: defs[i].var })
}

spec fn consts_view(consts: Seq<Constant>) -> Seq<Named> {
    Seq::new(consts.len(), |i: int| Named { name: consts[i].name@, value: consts[i].value@ })
}

spec fn opens_view(opens: Seq<Unresolved>) -> Seq<Open> {
    Seq::new(opens.len(), |i: int| Open { name: opens[i].name@, var: opens[i].var, index: opens[i].index as int })
}

impl View for State {
    type V = Builder;

    closed spec fn view(&self) -> Builder {
        Builder {
            defs: defs_view(self.defs@),
            consts: consts_view(self.consts@),
            next_var: self.next_var.0,
            overflow: self.overflow,
            program: self.program@,
            sealed: self.sealed_blocks@,
            unresolved: Seq::new(self.unresolved_phis@.len(), |b: int| opens_view(self.unresolved_phis@[b]@)),
        }
    }
}

/// The name with the given number among the names of devices and attributes.
fn external_name(i: usize) -> (r: &'static str)
    ensures
        r@ == external(i as int),
{
    if i == 0 {
        "db"
    } else if i == 1 {
        "d0"
    } else if i == 2 {
        "d1"
    } else if i == 3 {
        "d2"
    } else if i == 4 {
        "d3"
    } else if i == 5 {
        "d4"
    } else if i == 6 {
        "d5"
    } else if i == 7 {
        "Activate"
    } else if i == 8 {
        "AirRelease"
    } else if i == 9 {
        "Charge"
    } else if i == 10 {
        "ClearMemory"
    } else if i == 11 {
        "Color"
    } else if i == 12 {
        "CompletionRatio"
    } else if i == 13 {
        "ElevatorLevel"
    } else if i == 14 {
        "ElevatorSpeed"
    } else if i == 15 {
        "Error"
    } else if i == 16 {
        "ExportCount"
    } else if i == 17 {
        "Filtration"
    } else if i == 18 {
        "Harvest"
    } else if i == 19 {
        "Horizontal"
    } else if i == 20 {
        "HorizontalRatio"
    } else if i == 21 {
        "Idle"
    } else if i == 22 {
        "ImportCount"
    } else if i == 23 {
        "Lock"
    } else if i == 24 {
        "Maximum"
    } else if i == 25 {
        "Mode"
    } else if i == 26 {
        "On"
    } else if i == 27 {
        "Open"
    } else if i == 28 {
        "Output"
    } else if i == 29 {
        "Plant"
    } else if i == 30 {
        "PositionX"
    } else if i == 31 {
        "PositionY"
    } else if i == 32 {
        "Power"
    } else if i == 33 {
        "PowerActual"
    } else if i == 34 {
        "PowerPotential"
    } else if i == 35 {
        "PowerRequired"
    } else if i == 36 {
        "Pressure"
    } else if i == 37 {
        "PressureExternal"
    } else if i == 38 {
        "PressureInternal"
    } else if i == 39 {
        "PressureSetting"
    } else if i == 40 {
        "Quantity"
    } else if i == 41 {
        "Ratio"
    } else if i == 42 {
        "RatioCarbonDioxide"
    } else if i == 43 {
        "RatioNitrogen"
    } else if i == 44 {
        "RatioOxygen"
    } else if i == 45 {
        "RatioPollutant"
    } else if i == 46 {
        "RatioVolatiles"
    } else if i == 47 {
        "RatioWater"
    } else if i == 48 {
        "Reagents"
    } else if i == 49 {
        "RecipeHash"
    } else if i == 50 {
        "RequestHash"
    } else if i == 51 {
        "RequiredPower"
    } else if i == 52 {
        "Setting"
    } else if i == 53 {
        "SolarAngle"
    } else if i == 54 {
        "Temperature"
    } else if i == 55 {
        "TemperatureSettings"
    } else if i == 56 {
        "TotalMoles"
    } else if i == 57 {
        "VelocityMagnitude"
    } else if i == 58 {
        "VelocityRelativeX"
    } else if i == 59 {
        "VelocityRelativeY"
    } else if i == 60 {
        "VelocityRelativeZ"
    } else if i == 61 {
        "Vertical"
    } else if i == 62 {
        "VerticalRatio"
    } else {
        "Volume"
    }
}

/// A copy of a list of blocks.
fn copy_blocks(blocks: &Vec<BlockId>) -> (r: Vec<BlockId>)
    ensures
        r@ == blocks@,
{
    let mut r: Vec<BlockId> = Vec::new();
    let mut i: usize = 0;
    while i < blocks.len()
        invariant
            i <= blocks.len(),
            r@ == blocks@.take(i as int),
        decreases blocks.len() - i,
    {
        r.push(blocks[i]);
        i = i + 1;
        assert(r@ =~= blocks@.take(i as int));
    }
    assert(blocks@.take(blocks@.len() as int) =~= blocks@);
    r
}

impl State {
    /// The state before anything is built.
    fn new() -> (r: State)
        ensures
            r@ == Builder::empty(),
    {
        let r = State {
            defs: Vec::new(),
            consts: Vec::new(),
            next_var: VarId(1),
            overflow: false,
            program: Program { blocks: Vec::new() },
            sealed_blocks: Vec::new(),
            unresolved_phis: Vec::new(),
        };
        assert(r@.defs =~= Builder::empty().defs);
        assert(r@.consts =~= Builder::empty().consts);
        assert(r@.program.blocks =~= Builder::empty().program.blocks);
        assert(r@.unresolved =~= Builder::empty().unresolved);
        r
    }

    /// Adds an empty block.
    fn new_block(&mut self, sealed: bool) -> (id: BlockId)
        requires
            old(self)@.inv(),
        ensures
            (final(self)@, id) == old(self)@.new_block(sealed),
            final(self)@.inv(),
    {
        let id = BlockId(self.program.blocks.len());
        if self.program.blocks.len() == usize::MAX {
            self.overflow = true;
        }
        self.program.blocks.push(Block { instructions: Vec::new(), prev: Vec::new(), next: Vec::new() });
        self.sealed_blocks.push(sealed);
        self.unresolved_phis.push(Vec::new());
        proof {
            let s = old(self)@.new_block(sealed).0;
            assert(self@.program.blocks =~= s.program.blocks) by {
                assert(self.program.blocks@[id.0 as int]@.instructions =~= Seq::<Step>::empty());
            }
            assert(self@.unresolved =~= s.unresolved) by {
                assert(opens_view(self.unresolved_phis@[id.0 as int]@) =~= Seq::<Open>::empty());
            }
            assert(self@.defs == s.defs);
            assert(self@.consts == s.consts);
            assert(self@ == s);
            lemma_new_block_inv(old(self)@, sealed);
        }
        id
    }

    /// Puts `to` after `from`.
    fn connect_blocks(&mut self, from: BlockId, to: BlockId)
        requires
            old(self)@.inv(),
            from.0 < old(self)@.blocks(),
            to.0 < old(self)@.blocks(),
        ensures
            final(self)@ == old(self)@.connect(from, to),
            final(self)@.inv(),
    {
        self.program.blocks[from.0].next.push(to);
        self.program.blocks[to.0].prev.push(from);
        proof {
            let s = old(self)@.connect(from, to);
            assert(self@.program.blocks =~= s.program.blocks);
            assert(self@.unresolved =~= s.unresolved);
            assert(self@ == s);
            lemma_connect_inv(old(self)@, from, to);
        }
    }

    /// The place of the entry for `name` in `block`.
    fn find_definition(&self, block: BlockId, name: &String) -> (r: Option<usize>)
        ensures
            match r {
                Some(k) => find_def(self@.defs, name@, block, 0) == Some(k as int) && k < self.defs@.len(),
                None => find_def(self@.defs, name@, block, 0) is None,
            },
    {
        let mut i: usize = 0;
        while i < self.defs.len()
            invariant
                i <= self.defs.len(),
                find_def(self@.defs, name@, block, i as int) == find_def(self@.defs, name@, block, 0),
            decreases self.defs.len() - i,
        {
            if self.defs[i].block.0 == block.0 && self.defs[i].name == *name {
                return Some(i);
            }
            i = i + 1;
        }
        None
    }

    /// The value of `name` at the end of `block`.
    fn lookup(&self, block: BlockId, name: &String) -> (r: Option<VarId>)
        ensures
            r == lookup(self@.defs, name@, block),
    {
        match self.find_definition(block, name) {
            Some(k) => Some(self.defs[k].var),
            None => None,
        }
    }

    /// Whether `name` has a value in some block.
    fn knows(&self, name: &String) -> (r: bool)
        ensures
            r == self@.knows(name@),
    {
        let mut i: usize = 0;
        while i < self.defs.len()
            invariant
                i <= self.defs.len(),
                known_from(self@.defs, name@, i as int) == known_from(self@.defs, name@, 0),
            decreases self.defs.len() - i,
        {
            if self.defs[i].name == *name {
                return true;
            }
            i = i + 1;
        }
        false
    }

    /// Makes `v` the value of `name` at the end of `block`.
    fn assign(&mut self, block: BlockId, name: &String, v: VarId)
        ensures
            final(self)@ == old(self)@.assign(block, name@, v),
    {
        match self.find_definition(block, name) {
            Some(k) => {
                self.defs[k].var = v;
                proof {
                    lemma_find_def(old(self)@.defs, name@, block, 0);
                    assert(self@.defs =~= assigned(old(self)@.defs, name@, block, v));
                }
            },
            None => {
                self.defs.push(Definition { name: name.clone(), block, var: v });
                proof {
                    assert(self@.defs =~= assigned(old(self)@.defs, name@, block, v));
                }
            },
        }
    }

    /// The constant that `name` stands for.
    fn constant(&self, name: &String) -> (r: Option<VarOrConst>)
        ensures
            match r {
                Some(x) => self@.constant(name@) == Some(x@),
                None => self@.constant(name@) is None,
            },
    {
        let mut i: usize = 0;
        while i < self.consts.len()
            invariant
                i <= self.consts.len(),
                find_const(self@.consts, name@, i as int) == find_const(self@.consts, name@, 0),
            decreases self.consts.len() - i,
        {
            if self.consts[i].name == *name {
                return Some(self.consts[i].value.duplicate());
            }
            i = i + 1;
        }
        None
    }

    /// Makes `name` a constant that stands for `value`.
    fn define(&mut self, name: &String, value: VarOrConst)
        ensures
            final(self)@ == old(self)@.define(name@, value@),
    {
        let mut i: usize = 0;
        while i < self.consts.len()
            invariant
                i <= self.consts.len(),
                self@ == old(self)@,
                find_const(self@.consts, name@, i as int) == find_const(self@.consts, name@, 0),
            decreases self.consts.len() - i,
        {
            if self.consts[i].name == *name {
                self.consts[i].value = value;
                proof {
                    assert(self@.consts =~= defined_const(old(self)@.consts, name@, value@));
                }
                return ;
            }
            i = i + 1;
        }
        self.consts.push(Constant { name: name.clone(), value });
        proof {
            assert(self@.consts =~= defined_const(old(self)@.consts, name@, value@));
        }
    }

    /// Makes the names of devices and attributes constants.
    fn init(&mut self)
        ensures
            final(self)@ == old(self)@.init(),
    {
        self.consts = Vec::new();
        let mut i: usize = 0;
        while i < EXTERNALS
            invariant
                i <= 64,
                self.consts@.len() == i,
                forall|k: int|
                    0 <= k < i ==> (#[trigger] self.consts@[k]).name@ == external(k) && self.consts@[k].value@
                        == Operand::External(external(k)),
                self.defs == old(self).defs,
                self.next_var == old(self).next_var,
                self.overflow == old(self).overflow,
                self.program == old(self).program,
                self.sealed_blocks == old(self).sealed_blocks,
                self.unresolved_phis == old(self).unresolved_phis,
            decreases 64 - i,
        {
            let name: &str = external_name(i);
            self.consts.push(Constant { name: name.to_owned(), value: VarOrConst::External(name.to_owned()) });
            i = i + 1;
        }
        proof {
            assert(self@.consts =~= old(self)@.init().consts);
        }
    }

    /// Takes the number of the next value.
    fn next_var(&mut self) -> (x: VarId)
        ensures
            (final(self)@, x) == old(self)@.fresh(),
    {
        let x = self.next_var;
        if self.next_var.0 == usize::MAX {
            self.overflow = true;
        } else {
            self.next_var = VarId(self.next_var.0 + 1);
        }
        x
    }

    /// Puts an instruction at the end of `block`.
    fn emit(&mut self, block: BlockId, instruction: Instruction)
        requires
            old(self)@.inv(),
            block.0 < old(self)@.blocks(),
            instruction@.targets_below(old(self)@.blocks() as int),
        ensures
            final(self)@ == old(self)@.emit(block, instruction@),
            final(self)@.inv(),
    {
        self.program.blocks[block.0].instructions.push(instruction);
        proof {
            let s = old(self)@.emit(block, instruction@);
            assert(self@.program.blocks =~= s.program.blocks) by {
                assert(self@.program.blocks[block.0 as int].instructions =~= s.program.blocks[block.0 as int].instructions);
            }
            assert(self@.unresolved =~= s.unresolved);
            assert(self@ == s);
            lemma_emit_inv(old(self)@, block, instruction@);
        }
    }

    /// Assigns a new value at the end of `block`.
    fn add_variable(&mut self, block: BlockId, value: VarValue) -> (id: VarId)
        requires
            old(self)@.inv(),
            block.0 < old(self)@.blocks(),
        ensures
            (final(self)@, id) == old(self)@.add_variable(block, value@),
            final(self)@.inv(),
    {
        let id = self.next_var();
        self.emit(block, Instruction::Assignment { id, value });
        id
    }
}

/// A list of values without those equal to `id`.
fn drop_var(all: &Vec<VarId>, id: VarId) -> (r: Vec<VarId>)
    ensures
        r@ == without_var(all@, id),
{
    let mut r: Vec<VarId> = Vec::new();
    let mut i: usize = 0;
    while i < all.len()
        invariant
            i <= all.len(),
            r@ == without_var(all@.take(i as int), id),
        decreases all.len() - i,
    {
        proof {
            assert(all@.take(i as int + 1).drop_last() =~= all@.take(i as int));
        }
        if all[i].0 != id.0 {
            r.push(all[i]);
        }
        i = i + 1;
    }
    assert(all@.take(all@.len() as int) =~= all@);
    r
}

impl State {
    /// Reads `name` at the end of `block`.
    fn read_variable(&mut self, block: BlockId, name: &String) -> (id: VarId)
        requires
            old(self)@.inv(),
            block.0 < old(self)@.blocks(),
        ensures
            (final(self)@, id) == old(self)@.read_variable(block, name@),
            final(self)@.inv(),
            old(self)@.grown(final(self)@),
            final(self)@.sealed == old(self)@.sealed,
            final(self)@.lacking(name@) <= old(self)@.lacking(name@),
        decreases old(self)@.lacking(name@), 0nat, 0nat,
    {
        if let Some(x) = self.lookup(block, name) {
            return x;
        }
        let n: usize = self.program.blocks.len();
        if !self.sealed_blocks[block.0] {
            let id = self.add_variable(block, VarValue::Phi(Vec::new()));
            let ghost s1 = self@;
            self.assign(block, name, id);
            assert(self@.program.blocks[block.0 as int].instructions.len() == old(
                self,
            )@.program.blocks[block.0 as int].instructions.len() + 1);
            let index: usize = self.program.blocks[block.0].instructions.len() - 1;
            self.unresolved_phis[block.0].push(Unresolved { name: name.clone(), var: id, index });
            proof {
                let s2 = s1.assign(block, name@, id);
                let s3 = s2.defer(block, Open { name: name@, var: id, index: index as int });
                assert(self@.unresolved =~= s3.unresolved) by {
                    assert(self@.unresolved[block.0 as int] =~= s3.unresolved[block.0 as int]);
                }
                assert(self@ == s3);
                lemma_missing_assigned(s1.defs, name@, block, id, name@, n as nat);
                assert forall|b: int, k: int|
                    0 <= b < s3.unresolved.len() && 0 <= k < s3.unresolved[b].len() implies 0 <= (#[trigger] s3.unresolved[b][k]).index < s3.program.blocks[b].instructions.len() by {
                    if b == block.0 && k == s1.unresolved[b].len() {
                    } else {
                        assert(s1.unresolved[b][k].index < s1.program.blocks[b].instructions.len());
                    }
                }
            }
            return id;
        }
        let id = self.next_var();
        let ghost s1 = self@;
        self.assign(block, name, id);
        proof {
            lemma_missing_assigned(s1.defs, name@, block, id, name@, n as nat);
        }
        let prevs: Vec<BlockId> = copy_blocks(&self.program.blocks[block.0].prev);
        let all: Vec<VarId> = self.read_all(&prevs, name);
        let value: VarValue = if all.len() == 1 {
            VarValue::Single(VarOrConst::Var(all[0]))
        } else {
            VarValue::Phi(all)
        };
        self.emit(block, Instruction::Assignment { id, value });
        id
    }

    /// Reads `name` at the end of each of `blocks`, in order.
    fn read_all(&mut self, blocks: &Vec<BlockId>, name: &String) -> (all: Vec<VarId>)
        requires
            old(self)@.inv(),
            forall|k: int| 0 <= k < blocks@.len() ==> (#[trigger] blocks@[k]).0 < old(self)@.blocks(),
        ensures
            (final(self)@, all@) == old(self)@.read_all(blocks@, 0, name@),
            final(self)@.inv(),
            old(self)@.grown(final(self)@),
            final(self)@.sealed == old(self)@.sealed,
            final(self)@.lacking(name@) <= old(self)@.lacking(name@),
        decreases old(self)@.lacking(name@), 1nat, 0nat,
    {
        let mut all: Vec<VarId> = Vec::new();
        let mut i: usize = 0;
        while i < blocks.len()
            invariant
                i <= blocks.len(),
                self@.inv(),
                forall|k: int| 0 <= k < blocks@.len() ==> (#[trigger] blocks@[k]).0 < self@.blocks(),
                old(self)@.grown(self@),
                self@.sealed == old(self)@.sealed,
                self@.lacking(name@) <= old(self)@.lacking(name@),
                old(self)@.read_all(blocks@, 0, name@) == (
                    self@.read_all(blocks@, i as int, name@).0,
                    all@ + self@.read_all(blocks@, i as int, name@).1,
                ),
            decreases blocks.len() - i,
        {
            let ghost before = self@;
            let ghost sofar = all@;
            let v = self.read_variable(blocks[i], name);
            all.push(v);
            i = i + 1;
            proof {
                let rest = self@.read_all(blocks@, i as int, name@).1;
                assert(sofar + (seq![v] + rest) =~= all@ + rest);
            }
        }
        proof {
            assert(all@ + Seq::<VarId>::empty() =~= all@);
        }
        all
    }

    /// Fills the phis that waited for `block` to be sealed.
    fn resolve_all(&mut self, block: BlockId, phis: &Vec<Unresolved>)
        requires
            old(self)@.inv(),
            block.0 < old(self)@.blocks(),
            forall|k: int|
                0 <= k < phis@.len() ==> (#[trigger] phis@[k]).index
                    < old(self)@.program.blocks[block.0 as int].instructions.len(),
        ensures
            final(self)@ == old(self)@.resolve_all(block, opens_view(phis@), 0),
            final(self)@.inv(),
            old(self)@.grown(final(self)@),
            final(self)@.sealed == old(self)@.sealed,
    {
        let mut k: usize = 0;
        while k < phis.len()
            invariant
                k <= phis.len(),
                self@.inv(),
                block.0 < self@.blocks(),
                old(self)@.grown(self@),
                self@.sealed == old(self)@.sealed,
                forall|j: int|
                    0 <= j < phis@.len() ==> (#[trigger] phis@[j]).index
                        < self@.program.blocks[block.0 as int].instructions.len(),
                old(self)@.resolve_all(block, opens_view(phis@), 0) == self@.resolve_all(
                    block,
                    opens_view(phis@),
                    k as int,
                ),
            decreases phis.len() - k,
        {
            let ghost before = self@;
            let prevs: Vec<BlockId> = copy_blocks(&self.program.blocks[block.0].prev);
            proof {
                assert forall|j: int| 0 <= j < prevs@.len() implies (#[trigger] prevs@[j]).0 < self@.blocks() by {
                    assert(self@.program.blocks[block.0 as int].prev[j].0 < self@.program.blocks.len());
                }
            }
            let all: Vec<VarId> = self.read_all(&prevs, &phis[k].name);
            let id: VarId = phis[k].var;
            let index: usize = phis[k].index;
            let value: VarValue = VarValue::Phi(drop_var(&all, id));
            let ghost s1 = self@;
            assert(phis@[k as int].index < s1.program.blocks[block.0 as int].instructions.len());
            self.program.blocks[block.0].instructions[index] = Instruction::Assignment { id, value };
            proof {
                let step = Step::Assignment { id, value: Value::Phi(without_var(all@, id)) };
                let s2 = s1.replace(block, index as int, step);
                assert(self@.program.blocks =~= s2.program.blocks) by {
                    assert(self@.program.blocks[block.0 as int].instructions =~= s2.program.blocks[block.0 as int].instructions);
                }
                assert(self@.unresolved =~= s2.unresolved);
                assert(self@ == s2);
                lemma_replace_inv(s1, block, index as int, step);
                assert(opens_view(phis@)[k as int] == (Open {
                    name: phis@[k as int].name@,
                    var: id,
                    index: index as int,
                }));
            }
            k = k + 1;
        }
    }

    /// Seals `block` and the blocks after it.
    fn seal_block(&mut self, block: BlockId)
        requires
            old(self)@.inv(),
            block.0 < old(self)@.blocks(),
        ensures
            final(self)@ == old(self)@.seal_block(block),
            final(self)@.inv(),
            old(self)@.grown(final(self)@),
            final(self)@.unsealed() <= old(self)@.unsealed(),
        decreases old(self)@.unsealed(), 0nat, 0nat,
    {
        if self.sealed_blocks[block.0] {
            return ;
        }
        proof {
            lemma_count_false_update(self@.sealed, block.0 as int);
        }
        self.sealed_blocks.set(block.0, true);
        let mut phis: Vec<Unresolved> = Vec::new();
        std::mem::swap(&mut phis, &mut self.unresolved_phis[block.0]);
        proof {
            let s1 = Builder {
                sealed: old(self)@.sealed.update(block.0 as int, true),
                unresolved: old(self)@.unresolved.update(block.0 as int, Seq::empty()),
                ..old(self)@
            };
            assert(self@.unresolved =~= s1.unresolved) by {
                assert(self@.unresolved[block.0 as int] =~= Seq::<Open>::empty());
            }
            assert(self@ == s1);
            assert(opens_view(phis@) == old(self)@.unresolved[block.0 as int]);
            assert forall|b: int, k: int|
                0 <= b < s1.unresolved.len() && 0 <= k < s1.unresolved[b].len() implies 0 <= (#[trigger] s1.unresolved[b][k]).index < s1.program.blocks[b].instructions.len() by {
                assert(old(self)@.unresolved[b][k].index < old(self)@.program.blocks[b].instructions.len());
            }
            assert forall|k: int| 0 <= k < phis@.len() implies (#[trigger] phis@[k]).index
                < s1.program.blocks[block.0 as int].instructions.len() by {
                assert(old(self)@.unresolved[block.0 as int][k].index == phis@[k].index);
            }
        }
        self.resolve_all(block, &phis);
        let next: Vec<BlockId> = copy_blocks(&self.program.blocks[block.0].next);
        proof {
            assert forall|j: int| 0 <= j < next@.len() implies (#[trigger] next@[j]).0 < self@.blocks() by {
                assert(self@.program.blocks[block.0 as int].next[j].0 < self@.program.blocks.len());
            }
        }
        self.seal_all(&next);
    }

    /// Seals each of `blocks`, in order.
    fn seal_all(&mut self, blocks: &Vec<BlockId>)
        requires
            old(self)@.inv(),
            forall|k: int| 0 <= k < blocks@.len() ==> (#[trigger] blocks@[k]).0 < old(self)@.blocks(),
        ensures
            final(self)@ == old(self)@.seal_all(blocks@, 0),
            final(self)@.inv(),
            old(self)@.grown(final(self)@),
            final(self)@.unsealed() <= old(self)@.unsealed(),
        decreases old(self)@.unsealed(), 1nat, 0nat,
    {
        let mut i: usize = 0;
        while i < blocks.len()
            invariant
                i <= blocks.len(),
                self@.inv(),
                forall|k: int| 0 <= k < blocks@.len() ==> (#[trigger] blocks@[k]).0 < self@.blocks(),
                old(self)@.grown(self@),
                self@.unsealed() <= old(self)@.unsealed(),
                old(self)@.seal_all(blocks@, 0) == self@.seal_all(blocks@, i as int),
            decreases blocks.len() - i,
        {
            self.seal_block(blocks[i]);
            i = i + 1;
        }
    }
}

/// Reads an identifier: a constant, or the value of the name in `block`.
fn read_name(state: &mut State, block: BlockId, name: &String) -> (r: Result<VarOrConst, Error>)
    requires
        old(state)@.inv(),
        block.0 < old(state)@.blocks(),
    ensures
        match old(state)@.lower_name(block, name@) {
            Ok((s, operand)) => r is Ok && r->Ok_0@ == operand && final(state)@ == s && old(state)@.leads_to(s),
            Err(e) => r == Err::<VarOrConst, Error>(e),
        },
{
    if let Some(x) = state.constant(name) {
        return Ok(x);
    }
    if state.knows(name) {
        let id = state.read_variable(block, name);
        Ok(VarOrConst::Var(id))
    } else {
        Err(Error::UndefinedName)
    }
}

/// Lowers an expression into `block`.
fn process_expr(state: &mut State, block: BlockId, expr: &Expr) -> (r: Result<VarOrConst, Error>)
    requires
        old(state)@.inv(),
        block.0 < old(state)@.blocks(),
    ensures
        match old(state)@.lower_expr(block, *expr) {
            Ok((s, operand)) => r is Ok && r->Ok_0@ == operand && final(state)@ == s && old(state)@.leads_to(s),
            Err(e) => r == Err::<VarOrConst, Error>(e),
        },
    decreases expr, 0nat,
{
    match expr {
        Expr::Constant(v) => Ok(VarOrConst::Const(v.number())),
        Expr::Identifier(ident) => read_name(state, block, ident.as_string()),
        Expr::BinaryOp(lhs_expr, op, rhs_expr) => {
            let lhs = match process_expr(state, block, lhs_expr) {
                Ok(x) => x,
                Err(e) => {
                    return Err(e);
                },
            };
            let rhs = match process_expr(state, block, rhs_expr) {
                Ok(x) => x,
                Err(e) => {
                    return Err(e);
                },
            };
            Ok(VarOrConst::Var(state.add_variable(block, VarValue::BinaryOp { lhs, op: *op, rhs })))
        },
        Expr::UnaryOp(_, _) => Err(Error::UnsupportedSyntax),
        Expr::FunctionCall(ident, args) => {
            let args = match process_args(state, block, args) {
                Ok(x) => x,
                Err(e) => {
                    return Err(e);
                },
            };
            Ok(VarOrConst::Var(state.add_variable(block, VarValue::Call { name: ident.to_string(), args })))
        },
        Expr::FieldExpr(d, logic) => {
            let arg0 = match read_name(state, block, d.as_string()) {
                Ok(x) => x,
                Err(e) => {
                    return Err(e);
                },
            };
            let arg1 = match read_name(state, block, logic.as_string()) {
                Ok(x) => x,
                Err(e) => {
                    return Err(e);
                },
            };
            let mut args: Vec<VarOrConst> = Vec::new();
            args.push(arg0);
            args.push(arg1);
            proof {
                assert(operands(args@) =~= seq![arg0@, arg1@]);
            }
            Ok(VarOrConst::Var(state.add_variable(block, VarValue::Call { name: "load".to_owned(), args })))
        },
    }
}

/// Lowers the arguments of a call, in order.
fn process_args(state: &mut State, block: BlockId, args: &Vec<Box<Expr>>) -> (r: Result<Vec<VarOrConst>, Error>)
    requires
        old(state)@.inv(),
        block.0 < old(state)@.blocks(),
    ensures
        match old(state)@.lower_args(block, *args, 0) {
            Ok((s, list)) => r is Ok && operands(r->Ok_0@) == list && final(state)@ == s && old(state)@.leads_to(s),
            Err(e) => r == Err::<Vec<VarOrConst>, Error>(e),
        },
    decreases args, 0nat,
{
    let mut list: Vec<VarOrConst> = Vec::new();
    let mut i: usize = 0;
    while i < args.len()
        invariant
            i <= args.len(),
            state@.inv(),
            block.0 < state@.blocks(),
            old(state)@.blocks() <= state@.blocks(),
            old(state)@.lower_args(block, *args, 0) == match state@.lower_args(block, *args, i as int) {
                Ok((s, rest)) => Ok::<(Builder, Seq<Operand>), Error>((s, operands(list@) + rest)),
                Err(e) => Err(e),
            },
        decreases args.len() - i,
    {
        let ghost sofar = operands(list@);
        let ghost before = state@;
        let first = match process_expr(state, block, &args[i]) {
            Ok(x) => x,
            Err(e) => {
                return Err(e);
            },
        };
        list.push(first);
        i = i + 1;
        proof {
            assert(operands(list@) =~= sofar.push(first@));
            match state@.lower_args(block, *args, i as int) {
                Ok((s, rest)) => {
                    assert(sofar + (seq![first@] + rest) =~= operands(list@) + rest);
                },
                Err(e) => {},
            }
        }
    }
    proof {
        assert(operands(list@) + Seq::<Operand>::empty() =~= operands(list@));
    }
    Ok(list)
}

/// The value of an expression as a value of the program.
fn as_variable(state: &mut State, block: BlockId, v: VarOrConst) -> (id: VarId)
    requires
        old(state)@.inv(),
        block.0 < old(state)@.blocks(),
    ensures
        (final(state)@, id) == old(state)@.as_variable(block, v@),
        old(state)@.leads_to(final(state)@),
{
    match v {
        VarOrConst::Var(id) => id,
        other => state.add_variable(block, VarValue::Single(other)),
    }
}

/// Lowers one statement into `block`.
fn process_stmt(state: &mut State, block: BlockId, stmt: &Statement) -> (r: Result<BlockId, Error>)
    requires
        old(state)@.inv(),
        block.0 < old(state)@.blocks(),
    ensures
        match old(state)@.lower_stmt(block, *stmt) {
            Ok((s, next)) => r == Ok::<BlockId, Error>(next) && final(state)@ == s && old(state)@.leads_to(s)
                && next.0 < s.blocks(),
            Err(e) => r == Err::<BlockId, Error>(e),
        },
    decreases stmt, 0nat,
{
    match stmt {
        Statement::FunctionCall { identifier, arguments } => {
            let args = match process_args(state, block, arguments) {
                Ok(x) => x,
                Err(e) => {
                    return Err(e);
                },
            };
            state.add_variable(block, VarValue::Call { name: identifier.to_string(), args });
            Ok(block)
        },
        Statement::Definition { identifier, expression } => {
            let v = match process_expr(state, block, expression) {
                Ok(x) => x,
                Err(e) => {
                    return Err(e);
                },
            };
            let id = as_variable(state, block, v);
            state.assign(block, identifier.as_string(), id);
            Ok(block)
        },
        Statement::Assignment { lhs, rhs } => {
            let v = match process_expr(state, block, rhs) {
                Ok(x) => x,
                Err(e) => {
                    return Err(e);
                },
            };
            let id = as_variable(state, block, v);
            match &**lhs {
                Expr::Identifier(ident) => {
                    state.assign(block, ident.as_string(), id);
                    Ok(block)
                },
                Expr::FieldExpr(d, logic) => {
                    let arg0 = match read_name(state, block, d.as_string()) {
                        Ok(x) => x,
                        Err(e) => {
                            return Err(e);
                        },
                    };
                    let arg1 = match read_name(state, block, logic.as_string()) {
                        Ok(x) => x,
                        Err(e) => {
                            return Err(e);
                        },
                    };
                    let mut args: Vec<VarOrConst> = Vec::new();
                    args.push(arg0);
                    args.push(arg1);
                    args.push(VarOrConst::Var(id));
                    proof {
                        assert(operands(args@) =~= seq![arg0@, arg1@, Operand::Var(id)]);
                    }
                    state.add_variable(block, VarValue::Call { name: "store".to_owned(), args });
                    Ok(block)
                },
                _ => Err(Error::UnsupportedSyntax),
            }
        },
        Statement::Constant(identifier, expression) => {
            let v = match process_expr(state, block, expression) {
                Ok(x) => x,
                Err(e) => {
                    return Err(e);
                },
            };
            state.define(identifier.as_string(), v);
            Ok(block)
        },
        Statement::IfStatement(if_stmt) => process_cond(state, block, if_stmt),
        Statement::Loop { body } => {
            // The block after the loop comes first, so that a way out of the loop can go there.
            let block_next = state.new_block(false);
            let block_body = state.new_block(false);
            state.connect_blocks(block, block_body);
            let body_end = match process_stmts(state, block_body, body.statements()) {
                Ok(x) => x,
                Err(e) => {
                    return Err(e);
                },
            };
            state.connect_blocks(body_end, block_body);
            if state.sealed_blocks[block.0] {
                state.seal_block(block_body);
            }
            Ok(block_next)
        },
        Statement::Yield => {
            state.emit(block, Instruction::Yield);
            Ok(block)
        },
        Statement::Return(expr) => {
            let v = match process_expr(state, block, expr) {
                Ok(x) => x,
                Err(e) => {
                    return Err(e);
                },
            };
            state.emit(block, Instruction::Return(v));
            Ok(block)
        },
        _ => Err(Error::UnsupportedSyntax),
    }
}

/// Lowers a conditional that starts in `block`.
fn process_cond(state: &mut State, block: BlockId, statement: &IfStatement) -> (r: Result<BlockId, Error>)
    requires
        old(state)@.inv(),
        block.0 < old(state)@.blocks(),
    ensures
        match old(state)@.lower_if(block, *statement) {
            Ok((s, next)) => r == Ok::<BlockId, Error>(next) && final(state)@ == s && old(state)@.leads_to(s)
                && next.0 < s.blocks(),
            Err(e) => r == Err::<BlockId, Error>(e),
        },
    decreases statement, 0nat,
{
    let (condition, body) = match statement {
        IfStatement::If { condition, body } => (condition, body),
        IfStatement::IfElse { condition, body, else_body } => (condition, body),
    };
    let sealed: bool = state.sealed_blocks[block.0];
    let cond = match process_expr(state, block, condition) {
        Ok(x) => x,
        Err(e) => {
            return Err(e);
        },
    };
    let true_start = state.new_block(sealed);
    state.connect_blocks(block, true_start);
    let true_end = match process_stmts(state, true_start, body.statements()) {
        Ok(x) => x,
        Err(e) => {
            return Err(e);
        },
    };
    let false_start = state.new_block(sealed);
    state.connect_blocks(block, false_start);
    let false_end = match statement {
        IfStatement::If { condition, body } => false_start,
        IfStatement::IfElse { condition, body, else_body } => {
            match process_stmts(state, false_start, else_body.statements()) {
                Ok(x) => x,
                Err(e) => {
                    return Err(e);
                },
            }
        },
    };
    state.emit(block, Instruction::Branch { cond, true_block: true_start, false_block: false_start });
    let join = state.new_block(sealed);
    state.connect_blocks(true_end, join);
    state.connect_blocks(false_end, join);
    Ok(join)
}

/// Lowers statements in order, starting in `block`.
fn process_stmts(state: &mut State, block: BlockId, statements: &Vec<Statement>) -> (r: Result<BlockId, Error>)
    requires
        old(state)@.inv(),
        block.0 < old(state)@.blocks(),
    ensures
        match old(state)@.lower_stmts(block, *statements, 0) {
            Ok((s, next)) => r == Ok::<BlockId, Error>(next) && final(state)@ == s && old(state)@.leads_to(s)
                && next.0 < s.blocks(),
            Err(e) => r == Err::<BlockId, Error>(e),
        },
    decreases statements, 0nat,
{
    let mut current = block;
    let mut i: usize = 0;
    while i < statements.len()
        invariant
            i <= statements.len(),
            state@.inv(),
            current.0 < state@.blocks(),
            old(state)@.blocks() <= state@.blocks(),
            old(state)@.lower_stmts(block, *statements, 0) == state@.lower_stmts(current, *statements, i as int),
        decreases statements.len() - i,
    {
        current = match process_stmt(state, current, &statements[i]) {
            Ok(x) => x,
            Err(e) => {
                return Err(e);
            },
        };
        i = i + 1;
    }
    Ok(current)
}

/// Builds the intermediate representation of a program: the program of
/// `Builder::build`, or the first error on the way. The program is well
/// formed and has an entry; every edge is noted at both its ends; every
/// block has at most one successor and no branch, or two successors and
/// the branch between them; and no phi has more operands than its block
/// has predecessors.
pub fn generate_ir(program: ast::Program) -> (r: Result<Program, Error>)
    ensures
        match Builder::build(program.statements) {
            Ok(p) => r is Ok && r->Ok_0@ == p && p.well_formed() && p.blocks.len() > 0 && p.phis_bounded()
                && p.edges_paired() && p.settled(),
            Err(e) => r == Err::<Program, Error>(e),
        },
{
    let mut state = State::new();
    proof {
        assert(Builder::empty().inv());
        lemma_build_well_formed(program.statements);
        crate::ir::phis::lemma_build_phis_bounded(program.statements);
        crate::ir::shape::lemma_build_settled(program.statements);
    }
    let block = state.new_block(true);
    state.init();
    match process_stmts(&mut state, block, &program.statements) {
        Ok(_) => {
            if state.overflow {
                Err(Error::TooLarge)
            } else {
                Ok(state.program)
            }
        },
        Err(e) => Err(e),
    }
}

} // verus!
