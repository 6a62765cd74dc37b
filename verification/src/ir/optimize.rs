//! The passes over the intermediate representation: copies are folded into
//! their uses, and what nothing observable depends on is removed.
use vstd::prelude::*;
use std::collections::HashMap;
use std::collections::HashSet;
use crate::ir::types::{
    Block,
    BlockView,
    Instruction,
    Operand,
    Program,
    ProgramView,
    Step,
    Value,
    VarId,
    VarOrConst,
    VarValue,
    steps,
};
use crate::mips::types::same_text;

verus! {

broadcast use vstd::std_specs::hash::group_hash_axioms;

/// The steps of a sequence that `keep` holds of, in their order.
pub open spec fn retained(s: Seq<Step>, keep: spec_fn(Step) -> bool) -> Seq<Step>
    decreases s.len(),
{
    if s.len() == 0 {
        s
    } else if keep(s.last()) {
        retained(s.drop_last(), keep).push(s.last())
    } else {
        retained(s.drop_last(), keep)
    }
}

impl Value {
    /// Whether the value is a call of the primitive `store`.
    pub open spec fn is_store(self) -> bool {
        match self {
            Value::Call { name, args } => name == "store"@,
            _ => false,
        }
    }
}

impl ProgramView {
    /// Whether the instruction at `(b, i)` makes `v` a root: it is a call
    /// of `store` that assigns `v`, or a branch or a return that reads `v`.
    pub open spec fn root_at(self, b: int, i: int, v: VarId) -> bool {
        self.has(b, i) && match self.at(b, i) {
            Step::Assignment { id, value } => value.is_store() && id == v,
            Step::Branch { cond, true_block, false_block } => cond == Operand::Var(v),
            Step::Return(x) => x == Operand::Var(v),
            Step::Yield => false,
        }
    }

    /// Whether `v` is a root: something observable hangs on it directly.
    pub open spec fn root(self, v: VarId) -> bool {
        exists|b: int, i: int| self.root_at(b, i, v)
    }

    /// Whether the instruction that assigns `u` reads `v`.
    pub open spec fn depends(self, u: VarId, v: VarId) -> bool {
        exists|b: int, i: int| self.assigns(b, i, u) && self.reads(b, i, v)
    }

    /// Whether `path` starts at a root and each of its values is read by
    /// the instruction that assigns the one before.
    pub open spec fn chain(self, path: Seq<VarId>) -> bool {
        &&& path.len() > 0
        &&& self.root(path[0])
        &&& forall|k: int| 0 <= k < path.len() - 1 ==> self.depends(#[trigger] path[k], path[k + 1])
    }

    /// Whether something observable depends on `v`.
    pub open spec fn live(self, v: VarId) -> bool {
        exists|path: Seq<VarId>| self.chain(path) && path.last() == v
    }

    /// Whether an instruction stays: every instruction but an assignment
    /// to a value that nothing observable depends on.
    pub open spec fn keeps(self, step: Step) -> bool {
        match step {
            Step::Assignment { id, value } => self.live(id),
            _ => true,
        }
    }

    /// The program without the assignments that nothing observable depends on.
    pub open spec fn pruned(self) -> ProgramView {
        ProgramView {
            blocks: Seq::new(
                self.blocks.len(),
                |b: int|
                    BlockView {
                        instructions: retained(self.blocks[b].instructions, self.keeper()),
                        prev: self.blocks[b].prev,
                        next: self.blocks[b].next,
                    },
            ),
        }
    }

    /// Whether some assignment is one that nothing observable depends on.
    pub open spec fn has_dead(self) -> bool {
        exists|b: int, i: int| self.has(b, i) && !self.keeps(#[trigger] self.at(b, i))
    }

    /// Whether the instruction at `(b, i)` is a call of `store`.
    pub open spec fn stores_at(self, b: int, i: int) -> bool {
        self.has(b, i) && match self.at(b, i) {
            Step::Assignment { id, value } => value.is_store(),
            _ => false,
        }
    }
}

/// What a value that is live reads is live.
pub proof fn lemma_live_step(p: ProgramView, u: VarId, v: VarId)
    requires
        p.live(u),
        p.depends(u, v),
    ensures
        p.live(v),
{
    let path = choose|path: Seq<VarId>| p.chain(path) && path.last() == u;
    let longer = path.push(v);
    assert forall|k: int| 0 <= k < longer.len() - 1 implies p.depends(#[trigger] longer[k], longer[k + 1]) by {
        if k < path.len() - 1 {
            assert(p.depends(path[k], path[k + 1]));
        }
    }
    assert(longer[0] == path[0]);
    assert(p.chain(longer) && longer.last() == v);
}

/// A root is live.
pub proof fn lemma_root_live(p: ProgramView, v: VarId)
    requires
        p.root(v),
    ensures
        p.live(v),
{
    let path = seq![v];
    assert(p.chain(path) && path.last() == v);
}

/// A set that holds the roots and, with a value, what its assignment reads,
/// holds the last value of every chain.
pub proof fn lemma_chain_marked(p: ProgramView, used: Set<usize>, path: Seq<VarId>)
    requires
        p.chain(path),
        forall|v: VarId| p.root(v) ==> used.contains(v.0),
        forall|u: VarId, v: VarId| used.contains(u.0) && #[trigger] p.depends(u, v) ==> used.contains(v.0),
    ensures
        used.contains(path.last().0),
    decreases path.len(),
{
    if path.len() > 1 {
        let head = path.drop_last();
        assert forall|k: int| 0 <= k < head.len() - 1 implies p.depends(#[trigger] head[k], head[k + 1]) by {
            assert(p.depends(path[k], path[k + 1]));
        }
        assert(head[0] == path[0]);
        lemma_chain_marked(p, used, head);
        assert(p.depends(path[path.len() - 2], path[path.len() - 2 + 1]));
    }
}

/// Where the step that stands at `j` after the removal stood before.
pub open spec fn origin(s: Seq<Step>, keep: spec_fn(Step) -> bool, j: int) -> int
    decreases s.len(),
{
    if s.len() == 0 {
        0
    } else if keep(s.last()) && j == retained(s.drop_last(), keep).len() {
        s.len() - 1
    } else {
        origin(s.drop_last(), keep, j)
    }
}

/// Where the step that stands at `i` stands after the removal, if it stays.
pub open spec fn place(s: Seq<Step>, keep: spec_fn(Step) -> bool, i: int) -> int {
    retained(s.take(i), keep).len() as int
}

/// Nothing is added by the removal.
pub proof fn lemma_retained_len(s: Seq<Step>, keep: spec_fn(Step) -> bool)
    ensures
        retained(s, keep).len() <= s.len(),
    decreases s.len(),
{
    if s.len() > 0 {
        lemma_retained_len(s.drop_last(), keep);
    }
}

/// A step that stands after the removal stood at its origin before, and
/// was one to keep.
pub proof fn lemma_origin(s: Seq<Step>, keep: spec_fn(Step) -> bool, j: int)
    requires
        0 <= j < retained(s, keep).len(),
    ensures
        0 <= origin(s, keep, j) < s.len(),
        s[origin(s, keep, j)] == retained(s, keep)[j],
        keep(s[origin(s, keep, j)]),
    decreases s.len(),
{
    if s.len() > 0 {
        let head = s.drop_last();
        if keep(s.last()) && j == retained(head, keep).len() {
        } else {
            lemma_origin(head, keep, j);
        }
    }
}

/// The removal keeps the order of the steps.
pub proof fn lemma_origin_increasing(s: Seq<Step>, keep: spec_fn(Step) -> bool, j1: int, j2: int)
    requires
        0 <= j1 < j2 < retained(s, keep).len(),
    ensures
        origin(s, keep, j1) < origin(s, keep, j2),
    decreases s.len(),
{
    if s.len() > 0 {
        let head = s.drop_last();
        if keep(s.last()) && j2 == retained(head, keep).len() {
            lemma_origin(head, keep, j1);
        } else {
            lemma_origin_increasing(head, keep, j1, j2);
        }
    }
}

/// A step to keep stands at its place after the removal.
pub proof fn lemma_place(s: Seq<Step>, keep: spec_fn(Step) -> bool, i: int)
    requires
        0 <= i < s.len(),
        keep(s[i]),
    ensures
        0 <= place(s, keep, i) < retained(s, keep).len(),
        retained(s, keep)[place(s, keep, i)] == s[i],
    decreases s.len(),
{
    let head = s.drop_last();
    if i == s.len() - 1 {
        assert(s.take(i) =~= head);
    } else {
        assert(head.take(i) =~= s.take(i));
        lemma_place(head, keep, i);
    }
}

/// Where every step is one to keep, or as many steps stay as there were,
/// nothing is removed.
pub proof fn lemma_retained_all(s: Seq<Step>, keep: spec_fn(Step) -> bool)
    ensures
        (forall|i: int| 0 <= i < s.len() ==> keep(#[trigger] s[i])) ==> retained(s, keep) == s,
        retained(s, keep).len() == s.len() ==> retained(s, keep) == s,
        retained(s, keep) == s ==> forall|i: int| 0 <= i < s.len() ==> keep(#[trigger] s[i]),
    decreases s.len(),
{
    if s.len() > 0 {
        let head = s.drop_last();
        lemma_retained_all(head, keep);
        lemma_retained_len(head, keep);
        if forall|i: int| 0 <= i < s.len() ==> keep(#[trigger] s[i]) {
            assert forall|i: int| 0 <= i < head.len() implies keep(#[trigger] head[i]) by {
                assert(head[i] == s[i]);
            }
            assert(keep(s[s.len() - 1]));
            assert(retained(s, keep) =~= s);
        }
        if retained(s, keep).len() == s.len() {
            assert(retained(s, keep) =~= s);
        }
        if retained(s, keep) == s {
            assert(keep(s.last()));
            assert(retained(head, keep) =~= head) by {
                assert(retained(s, keep).drop_last() =~= retained(head, keep));
            }
            assert forall|i: int| 0 <= i < s.len() implies keep(#[trigger] s[i]) by {
                if i < head.len() {
                    assert(head[i] == s[i]);
                }
            }
        }
    }
}

impl ProgramView {
    /// The rule by which the removal keeps a step of this program.
    pub open spec fn keeper(self) -> spec_fn(Step) -> bool {
        |s: Step| self.keeps(s)
    }
}

/// An instruction of the program after the removal is the instruction at
/// its origin before.
pub proof fn lemma_pruned_at(p: ProgramView, b: int, j: int)
    requires
        p.pruned().has(b, j),
    ensures
        p.has(b, origin(p.blocks[b].instructions, p.keeper(), j)),
        p.at(b, origin(p.blocks[b].instructions, p.keeper(), j)) == p.pruned().at(b, j),
        p.keeps(p.pruned().at(b, j)),
{
    assert(p.pruned().blocks[b].instructions == retained(p.blocks[b].instructions, p.keeper()));
    lemma_origin(p.blocks[b].instructions, p.keeper(), j);
}

/// An instruction that is kept stands in the program after the removal.
pub proof fn lemma_pruned_has(p: ProgramView, b: int, i: int)
    requires
        p.has(b, i),
        p.keeps(p.at(b, i)),
    ensures
        p.pruned().has(b, place(p.blocks[b].instructions, p.keeper(), i)),
        p.pruned().at(b, place(p.blocks[b].instructions, p.keeper(), i)) == p.at(b, i),
{
    assert(p.pruned().blocks[b].instructions == retained(p.blocks[b].instructions, p.keeper()));
    lemma_place(p.blocks[b].instructions, p.keeper(), i);
}

/// What is read by an instruction that is kept is live.
pub proof fn lemma_read_live(p: ProgramView, b: int, i: int, v: VarId)
    requires
        p.reads(b, i, v),
        p.keeps(p.at(b, i)),
    ensures
        p.live(v),
{
    match p.at(b, i) {
        Step::Assignment { id, value } => {
            assert(p.assigns(b, i, id));
            assert(p.depends(id, v));
            lemma_live_step(p, id, v);
        },
        _ => {
            assert(p.root_at(b, i, v));
            lemma_root_live(p, v);
        },
    }
}

/// After the removal no value is assigned twice.
pub proof fn lemma_pruned_single(p: ProgramView, b1: int, i1: int, b2: int, i2: int, v: VarId)
    requires
        p.single_assignment(),
        p.pruned().assigns(b1, i1, v),
        p.pruned().assigns(b2, i2, v),
    ensures
        b1 == b2 && i1 == i2,
{
    lemma_pruned_at(p, b1, i1);
    lemma_pruned_at(p, b2, i2);
    let s1 = p.blocks[b1].instructions;
    let k1 = origin(s1, p.keeper(), i1);
    let k2 = origin(p.blocks[b2].instructions, p.keeper(), i2);
    assert(p.assigns(b1, k1, v) && p.assigns(b2, k2, v));
    assert(p.pruned().blocks[b1].instructions == retained(s1, p.keeper()));
    if i1 < i2 {
        lemma_origin_increasing(s1, p.keeper(), i1, i2);
    } else if i2 < i1 {
        lemma_origin_increasing(s1, p.keeper(), i2, i1);
    }
}

/// After the removal every value that is read is assigned.
pub proof fn lemma_pruned_closed(p: ProgramView, b: int, i: int, v: VarId)
    requires
        p.uses_defined(),
        p.pruned().reads(b, i, v),
    ensures
        p.pruned().defined(v),
{
    lemma_pruned_at(p, b, i);
    let k = origin(p.blocks[b].instructions, p.keeper(), i);
    assert(p.reads(b, k, v));
    lemma_read_live(p, b, k, v);
    assert(p.defined(v));
    let (db, di) = choose|db: int, di: int| p.assigns(db, di, v);
    lemma_pruned_has(p, db, di);
    assert(p.pruned().assigns(db, place(p.blocks[db].instructions, p.keeper(), di), v));
}

/// Removing the assignments that nothing observable depends on keeps the
/// program well formed.
pub proof fn lemma_pruned_well_formed(p: ProgramView)
    requires
        p.well_formed(),
    ensures
        p.pruned().well_formed(),
{
    let q = p.pruned();
    assert forall|b1: int, i1: int, b2: int, i2: int, v: VarId|
        #![trigger q.assigns(b1, i1, v), q.assigns(b2, i2, v)]
        q.assigns(b1, i1, v) && q.assigns(b2, i2, v) implies b1 == b2 && i1 == i2 by {
        lemma_pruned_single(p, b1, i1, b2, i2, v);
    }
    assert forall|b: int, i: int, v: VarId| #[trigger] q.reads(b, i, v) implies q.defined(v) by {
        lemma_pruned_closed(p, b, i, v);
    }
    assert forall|b: int, i: int| #[trigger] q.has(b, i) implies q.at(b, i).targets_below(
        q.blocks.len() as int,
    ) by {
        lemma_pruned_at(p, b, i);
    }
    assert forall|b: int, k: int|
        0 <= b < q.blocks.len() && 0 <= k < q.blocks[b].next.len() implies (
        #[trigger] q.blocks[b].next[k]).0 < q.blocks.len() by {
        assert(p.blocks[b].next[k].0 < p.blocks.len());
    }
    assert forall|b: int, k: int|
        0 <= b < q.blocks.len() && 0 <= k < q.blocks[b].prev.len() implies (
        #[trigger] q.blocks[b].prev[k]).0 < q.blocks.len() by {
        assert(p.blocks[b].prev[k].0 < p.blocks.len());
    }
}

/// After the removal every value that is assigned is read by an
/// instruction, unless it is the result of a call of `store`.
pub proof fn lemma_pruned_used(p: ProgramView, v: VarId)
    requires
        p.well_formed(),
        p.pruned().defined(v),
    ensures
        (exists|b: int, i: int| p.pruned().reads(b, i, v)) || (exists|b: int, i: int|
            p.pruned().assigns(b, i, v) && p.pruned().stores_at(b, i)),
{
    let q = p.pruned();
    let (b, i) = choose|b: int, i: int| q.assigns(b, i, v);
    lemma_pruned_at(p, b, i);
    let k = origin(p.blocks[b].instructions, p.keeper(), i);
    assert(p.assigns(b, k, v));
    assert(p.live(v));
    let path = choose|path: Seq<VarId>| p.chain(path) && path.last() == v;
    if path.len() == 1 {
        let (rb, ri) = choose|rb: int, ri: int| p.root_at(rb, ri, v);
        match p.at(rb, ri) {
            Step::Assignment { id, value } => {
                assert(p.assigns(rb, ri, v));
                assert(rb == b && ri == k);
                assert(q.stores_at(b, i));
            },
            _ => {
                lemma_pruned_has(p, rb, ri);
                assert(q.reads(rb, place(p.blocks[rb].instructions, p.keeper(), ri), v));
            },
        }
    } else {
        let head = path.drop_last();
        let u = head.last();
        assert forall|n: int| 0 <= n < head.len() - 1 implies p.depends(#[trigger] head[n], head[n + 1]) by {
            assert(p.depends(path[n], path[n + 1]));
        }
        assert(head[0] == path[0]);
        assert(p.chain(head) && head.last() == u);
        assert(p.live(u));
        assert(p.depends(path[path.len() - 2], path[path.len() - 2 + 1]));
        let (ub, ui) = choose|ub: int, ui: int| p.assigns(ub, ui, u) && p.reads(ub, ui, v);
        lemma_pruned_has(p, ub, ui);
        assert(q.reads(ub, place(p.blocks[ub].instructions, p.keeper(), ui), v));
    }
}

/// A root of a program is a root of the program after the removal.
pub proof fn lemma_root_pruned(p: ProgramView, v: VarId)
    requires
        p.root(v),
    ensures
        p.pruned().root(v),
{
    let (b, i) = choose|b: int, i: int| p.root_at(b, i, v);
    match p.at(b, i) {
        Step::Assignment { id, value } => {
            lemma_root_live(p, v);
        },
        _ => {},
    }
    lemma_pruned_has(p, b, i);
    assert(p.pruned().root_at(b, place(p.blocks[b].instructions, p.keeper(), i), v));
}

/// What the assignment of a live value reads, it reads after the removal.
pub proof fn lemma_depends_pruned(p: ProgramView, u: VarId, v: VarId)
    requires
        p.live(u),
        p.depends(u, v),
    ensures
        p.pruned().depends(u, v),
{
    let (b, i) = choose|b: int, i: int| p.assigns(b, i, u) && p.reads(b, i, v);
    lemma_pruned_has(p, b, i);
    let j = place(p.blocks[b].instructions, p.keeper(), i);
    assert(p.pruned().assigns(b, j, u) && p.pruned().reads(b, j, v));
}

/// A chain of a program is a chain of the program after the removal.
pub proof fn lemma_chain_pruned(p: ProgramView, path: Seq<VarId>)
    requires
        p.chain(path),
    ensures
        p.pruned().chain(path),
        p.live(path.last()),
    decreases path.len(),
{
    lemma_root_pruned(p, path[0]);
    assert(p.live(path.last()));
    if path.len() > 1 {
        let head = path.drop_last();
        assert forall|k: int| 0 <= k < head.len() - 1 implies p.depends(#[trigger] head[k], head[k + 1]) by {
            assert(p.depends(path[k], path[k + 1]));
        }
        assert(head[0] == path[0]);
        lemma_chain_pruned(p, head);
        assert forall|k: int| 0 <= k < path.len() - 1 implies p.pruned().depends(
            #[trigger] path[k],
            path[k + 1],
        ) by {
            if k < head.len() - 1 {
                assert(p.pruned().depends(head[k], head[k + 1]));
            } else {
                assert(p.depends(path[k], path[k + 1]));
                lemma_depends_pruned(p, path[k], path[k + 1]);
            }
        }
    }
}

/// The removal leaves nothing to remove: a second removal changes nothing.
pub proof fn lemma_pruned_idempotent(p: ProgramView)
    ensures
        !p.pruned().has_dead(),
        p.pruned().pruned() == p.pruned(),
{
    let q = p.pruned();
    assert forall|b: int, i: int| q.has(b, i) implies q.keeps(#[trigger] q.at(b, i)) by {
        lemma_pruned_at(p, b, i);
        match q.at(b, i) {
            Step::Assignment { id, value } => {
                let path = choose|path: Seq<VarId>| p.chain(path) && path.last() == id;
                lemma_chain_pruned(p, path);
                assert(q.chain(path) && path.last() == id);
            },
            _ => {},
        }
    }
    assert forall|b: int| 0 <= b < q.blocks.len() implies (#[trigger] q.pruned().blocks[b]) == q.blocks[b] by {
        let s = q.blocks[b].instructions;
        assert forall|i: int| 0 <= i < s.len() implies (q.keeper())(#[trigger] s[i]) by {
            assert(q.has(b, i));
            assert(q.keeps(q.at(b, i)));
        }
        lemma_retained_all(s, q.keeper());
    }
    assert(q.pruned().blocks =~= q.blocks);
}

/// The state of the search for what is live: every marked value is live,
/// every value on the stack is marked, and what the assignment of a marked
/// value reads is marked too, unless that value still waits on the stack or
/// is the one being worked on.
pub open spec fn marking(p: ProgramView, used: Set<usize>, stack: Seq<VarId>, current: Option<VarId>) -> bool {
    &&& forall|x: usize| used.contains(x) ==> p.live(VarId(x))
    &&& forall|k: int| 0 <= k < stack.len() ==> used.contains((#[trigger] stack[k]).0)
    &&& forall|u: VarId, v: VarId|
        used.contains(u.0) && #[trigger] p.depends(u, v) ==> used.contains(v.0) || stack.contains(u)
            || current == Some(u)
}

/// Whether the value that an operand reads, if it reads one, is marked.
pub open spec fn operand_marked(operand: Operand, used: Set<usize>) -> bool {
    match operand {
        Operand::Var(v) => used.contains(v.0),
        _ => true,
    }
}

/// How much of the search is left at most.
pub open spec fn effort(all: Set<usize>, used: Set<usize>, stack: Seq<VarId>) -> int {
    2 * (all.len() - used.len()) + stack.len()
}

/// Marks a live value and puts it on the stack, if it is not marked yet.
fn mark(
    Ghost(p): Ghost<ProgramView>,
    Ghost(current): Ghost<Option<VarId>>,
    Ghost(all): Ghost<Set<usize>>,
    used: &mut HashSet<usize>,
    stack: &mut Vec<VarId>,
    v: VarId,
)
    requires
        marking(p, old(used)@, old(stack)@, current),
        p.live(v),
        all.finite(),
        old(used)@.subset_of(all),
        all.contains(v.0),
    ensures
        marking(p, final(used)@, final(stack)@, current),
        final(used)@.contains(v.0),
        old(used)@.subset_of(final(used)@),
        final(used)@.subset_of(all),
        effort(all, final(used)@, final(stack)@) <= effort(all, old(used)@, old(stack)@),
        forall|u: VarId| old(stack)@.contains(u) ==> final(stack)@.contains(u),
        forall|x: usize| final(used)@.contains(x) && !old(used)@.contains(x) ==> final(stack)@.contains(VarId(x)),
{
    if !used.contains(&v.0) {
        used.insert(v.0);
        stack.push(v);
        proof {
            vstd::set_lib::lemma_len_subset(old(used)@, all);
            vstd::set_lib::lemma_len_subset(used@, all);
            assert(stack@[stack@.len() - 1] == v);
            assert forall|u: VarId| old(stack)@.contains(u) implies stack@.contains(u) by {
                let k = choose|k: int| 0 <= k < old(stack)@.len() && old(stack)@[k] == u;
                assert(stack@[k] == u);
            }
            assert forall|k: int| 0 <= k < stack@.len() implies used@.contains((#[trigger] stack@[k]).0) by {
                if k < old(stack)@.len() {
                    assert(old(stack)@[k] == stack@[k]);
                }
            }
        }
    }
}

/// Where each value of the program is assigned.
fn index_definitions(program: &Program) -> (pos: HashMap<usize, (usize, usize)>)
    ensures
        forall|id: usize| #[trigger] pos@.contains_key(id) ==> program@.assigns(pos@[id].0 as int, pos@[id].1 as int, VarId(id)),
        forall|b: int, i: int, v: VarId| #[trigger] program@.assigns(b, i, v) ==> pos@.contains_key(v.0),
{
    let mut pos: HashMap<usize, (usize, usize)> = HashMap::new();
    let mut b: usize = 0;
    while b < program.blocks.len()
        invariant
            b <= program.blocks.len(),
            forall|id: usize| #[trigger] pos@.contains_key(id) ==> program@.assigns(pos@[id].0 as int, pos@[id].1 as int, VarId(id)),
            forall|c: int, i: int, v: VarId| #[trigger] program@.assigns(c, i, v) && c < b ==> pos@.contains_key(v.0),
        decreases program.blocks.len() - b,
    {
        let block: &Block = &program.blocks[b];
        let mut i: usize = 0;
        while i < block.instructions.len()
            invariant
                b < program.blocks.len(),
                block == program.blocks@[b as int],
                i <= block.instructions.len(),
                forall|id: usize| #[trigger] pos@.contains_key(id) ==> program@.assigns(pos@[id].0 as int, pos@[id].1 as int, VarId(id)),
                forall|c: int, j: int, v: VarId| #[trigger] program@.assigns(c, j, v) && (c < b || (c == b && j < i)) ==> pos@.contains_key(v.0),
            decreases block.instructions.len() - i,
        {
            if let Instruction::Assignment { id, value } = &block.instructions[i] {
                assert(program@.assigns(b as int, i as int, *id));
                pos.insert(id.0, (b, i));
            }
            i = i + 1;
        }
        b = b + 1;
    }
    pos
}

/// Marks the roots of the program: the results of the calls of `store`
/// and what the branches and returns read.
fn mark_roots(
    program: &Program,
    Ghost(all): Ghost<Set<usize>>,
    used: &mut HashSet<usize>,
    stack: &mut Vec<VarId>,
)
    requires
        program@.well_formed(),
        all.finite(),
        forall|v: VarId| program@.defined(v) ==> all.contains(v.0),
        old(used)@ == Set::<usize>::empty(),
        old(stack)@ == Seq::<VarId>::empty(),
    ensures
        marking(program@, final(used)@, final(stack)@, None),
        final(used)@.subset_of(all),
        forall|v: VarId| program@.root(v) ==> final(used)@.contains(v.0),
{
    let mut b: usize = 0;
    while b < program.blocks.len()
        invariant
            b <= program.blocks.len(),
            program@.well_formed(),
            all.finite(),
            forall|v: VarId| program@.defined(v) ==> all.contains(v.0),
            marking(program@, used@, stack@, None),
            used@.subset_of(all),
            forall|x: usize| used@.contains(x) ==> stack@.contains(VarId(x)),
            forall|c: int, i: int, v: VarId| #[trigger] program@.root_at(c, i, v) && c < b ==> used@.contains(v.0),
        decreases program.blocks.len() - b,
    {
        let block: &Block = &program.blocks[b];
        let mut i: usize = 0;
        while i < block.instructions.len()
            invariant
                b < program.blocks.len(),
                block == program.blocks@[b as int],
                i <= block.instructions.len(),
                program@.well_formed(),
                all.finite(),
                forall|v: VarId| program@.defined(v) ==> all.contains(v.0),
                marking(program@, used@, stack@, None),
                used@.subset_of(all),
                forall|x: usize| used@.contains(x) ==> stack@.contains(VarId(x)),
                forall|c: int, j: int, v: VarId| #[trigger] program@.root_at(c, j, v) && (c < b || (c == b && j < i)) ==> used@.contains(v.0),
            decreases block.instructions.len() - i,
        {
            let ghost used0 = used@;
            let ghost stack0 = stack@;
            let root: Option<VarId> = match &block.instructions[i] {
                Instruction::Assignment { id, value } => {
                    match value {
                        VarValue::Call { name, args } => {
                            if same_text(name, "store") {
                                Some(*id)
                            } else {
                                None
                            }
                        },
                        _ => None,
                    }
                },
                Instruction::Branch { cond, true_block, false_block } => {
                    match cond {
                        VarOrConst::Var(v) => Some(*v),
                        _ => None,
                    }
                },
                Instruction::Return(x) => {
                    match x {
                        VarOrConst::Var(v) => Some(*v),
                        _ => None,
                    }
                },
                Instruction::Yield => None,
            };
            assert(forall|v: VarId| program@.root_at(b as int, i as int, v) <==> root == Some(v));
            if let Some(v) = root {
                proof {
                    assert(program@.root_at(b as int, i as int, v));
                    lemma_root_live(program@, v);
                    if program@.assigns(b as int, i as int, v) {
                    } else {
                        assert(program@.reads(b as int, i as int, v));
                    }
                    assert(program@.defined(v));
                }
                mark(Ghost(program@), Ghost(None), Ghost(all), used, stack, v);
            }
            i = i + 1;
        }
        b = b + 1;
    }
}

/// Marks what a value reads.
fn mark_uses(
    Ghost(p): Ghost<ProgramView>,
    Ghost(u): Ghost<VarId>,
    Ghost(all): Ghost<Set<usize>>,
    value: &VarValue,
    used: &mut HashSet<usize>,
    stack: &mut Vec<VarId>,
)
    requires
        marking(p, old(used)@, old(stack)@, Some(u)),
        p.live(u),
        forall|v: VarId| #[trigger] value@.uses().contains(v) ==> p.depends(u, v) && all.contains(v.0),
        all.finite(),
        old(used)@.subset_of(all),
    ensures
        marking(p, final(used)@, final(stack)@, Some(u)),
        forall|v: VarId| #[trigger] value@.uses().contains(v) ==> final(used)@.contains(v.0),
        old(used)@.subset_of(final(used)@),
        final(used)@.subset_of(all),
        effort(all, final(used)@, final(stack)@) <= effort(all, old(used)@, old(stack)@),
{
    match value {
        VarValue::Single(x) => {
            if let VarOrConst::Var(v) = x {
                proof {
                    assert(value@.uses().contains(*v));
                    lemma_live_step(p, u, *v);
                }
                mark(Ghost(p), Ghost(Some(u)), Ghost(all), used, stack, *v);
            }
        },
        VarValue::BinaryOp { lhs, op, rhs } => {
            if let VarOrConst::Var(v) = lhs {
                proof {
                    assert(value@.uses().contains(*v));
                    lemma_live_step(p, u, *v);
                }
                mark(Ghost(p), Ghost(Some(u)), Ghost(all), used, stack, *v);
            }
            if let VarOrConst::Var(v) = rhs {
                proof {
                    assert(value@.uses().contains(*v));
                    lemma_live_step(p, u, *v);
                }
                mark(Ghost(p), Ghost(Some(u)), Ghost(all), used, stack, *v);
            }
        },
        VarValue::Call { name, args } => {
            let mut k: usize = 0;
            while k < args.len()
                invariant
                    k <= args.len(),
                    value@ == (Value::Call { name: name@, args: crate::ir::types::operands(args@) }),
                    marking(p, used@, stack@, Some(u)),
                    p.live(u),
                    forall|v: VarId| #[trigger] value@.uses().contains(v) ==> p.depends(u, v) && all.contains(v.0),
                    all.finite(),
                    old(used)@.subset_of(used@),
                    used@.subset_of(all),
                    effort(all, used@, stack@) <= effort(all, old(used)@, old(stack)@),
                    forall|j: int| 0 <= j < k ==> operand_marked(#[trigger] args@[j]@, used@),
                decreases args.len() - k,
            {
                if let VarOrConst::Var(v) = &args[k] {
                    proof {
                        assert(crate::ir::types::operands(args@)[k as int] == Operand::Var(*v));
                        assert(value@.uses().contains(*v));
                        lemma_live_step(p, u, *v);
                    }
                    mark(Ghost(p), Ghost(Some(u)), Ghost(all), used, stack, *v);
                }
                k = k + 1;
            }
            proof {
                assert forall|v: VarId| #[trigger] value@.uses().contains(v) implies used@.contains(v.0) by {
                    let ops = crate::ir::types::operands(args@);
                    let j = choose|j: int| 0 <= j < ops.len() && #[trigger] ops[j] == Operand::Var(v);
                    assert(args@[j]@ == Operand::Var(v));
                    assert(operand_marked(args@[j]@, used@));
                }
            }
        },
        VarValue::Phi(phi) => {
            let mut k: usize = 0;
            while k < phi.len()
                invariant
                    k <= phi.len(),
                    value@ == Value::Phi(phi@),
                    marking(p, used@, stack@, Some(u)),
                    p.live(u),
                    forall|v: VarId| #[trigger] value@.uses().contains(v) ==> p.depends(u, v) && all.contains(v.0),
                    all.finite(),
                    old(used)@.subset_of(used@),
                    used@.subset_of(all),
                    effort(all, used@, stack@) <= effort(all, old(used)@, old(stack)@),
                    forall|j: int| 0 <= j < k ==> used@.contains((#[trigger] phi@[j]).0),
                decreases phi.len() - k,
            {
                let v: VarId = phi[k];
                proof {
                    assert(phi@.contains(phi@[k as int]));
                    assert(value@.uses().contains(v));
                    lemma_live_step(p, u, v);
                }
                mark(Ghost(p), Ghost(Some(u)), Ghost(all), used, stack, v);
                k = k + 1;
            }
            proof {
                assert forall|v: VarId| #[trigger] value@.uses().contains(v) implies used@.contains(v.0) by {
                    let j = choose|j: int| 0 <= j < phi@.len() && phi@[j] == v;
                    assert(used@.contains(phi@[j].0));
                }
            }
        },
    }
}

/// Taking a value off the stack to work on it keeps the state of the search.
pub proof fn lemma_after_pop(p: ProgramView, used: Set<usize>, stack: Seq<VarId>)
    requires
        marking(p, used, stack, None),
        stack.len() > 0,
    ensures
        marking(p, used, stack.drop_last(), Some(stack.last())),
        used.contains(stack.last().0),
{
    let rest = stack.drop_last();
    let id = stack.last();
    assert(used.contains(stack[stack.len() - 1].0));
    assert forall|u: VarId, v: VarId| used.contains(u.0) && #[trigger] p.depends(u, v) implies used.contains(
        v.0,
    ) || rest.contains(u) || Some(id) == Some(u) by {
        if !used.contains(v.0) && u != id {
            assert(stack.contains(u));
            let k = choose|k: int| 0 <= k < stack.len() && stack[k] == u;
            assert(rest[k] == u);
        }
    }
    assert forall|k: int| 0 <= k < rest.len() implies used.contains((#[trigger] rest[k]).0) by {
        assert(stack[k] == rest[k]);
    }
}

/// Once what the assignment of a value reads is marked, the work on the
/// value is done.
pub proof fn lemma_visited(p: ProgramView, used: Set<usize>, stack: Seq<VarId>, id: VarId, b: int, i: int)
    requires
        marking(p, used, stack, Some(id)),
        p.single_assignment(),
        p.assigns(b, i, id),
        forall|v: VarId| #[trigger] p.at(b, i).uses().contains(v) ==> used.contains(v.0),
    ensures
        marking(p, used, stack, None),
{
    assert forall|u: VarId, v: VarId| used.contains(u.0) && #[trigger] p.depends(u, v) implies used.contains(
        v.0,
    ) || stack.contains(u) by {
        if u == id {
            let (db, di) = choose|db: int, di: int| p.assigns(db, di, u) && p.reads(db, di, v);
            assert(db == b && di == i);
            assert(p.at(b, i).uses().contains(v));
        }
    }
}

/// There is no work on a value that no instruction assigns.
pub proof fn lemma_unassigned(p: ProgramView, used: Set<usize>, stack: Seq<VarId>, id: VarId)
    requires
        marking(p, used, stack, Some(id)),
        !p.defined(id),
    ensures
        marking(p, used, stack, None),
{
    assert forall|u: VarId, v: VarId| used.contains(u.0) && #[trigger] p.depends(u, v) implies used.contains(
        v.0,
    ) || stack.contains(u) by {
        if u == id {
            let (db, di) = choose|db: int, di: int| p.assigns(db, di, u) && p.reads(db, di, v);
            assert(p.defined(id));
        }
    }
}

/// When the search is over, the marked values are the live ones.
pub proof fn lemma_search_done(p: ProgramView, used: Set<usize>, v: VarId)
    requires
        marking(p, used, Seq::<VarId>::empty(), None),
        forall|r: VarId| p.root(r) ==> used.contains(r.0),
    ensures
        used.contains(v.0) <==> p.live(v),
{
    if p.live(v) {
        let path = choose|path: Seq<VarId>| p.chain(path) && path.last() == v;
        assert forall|a: VarId, c: VarId| used.contains(a.0) && #[trigger] p.depends(a, c) implies used.contains(
            c.0,
        ) by {
            assert(!Seq::<VarId>::empty().contains(a));
        }
        lemma_chain_marked(p, used, path);
    }
    if used.contains(v.0) {
        assert(p.live(VarId(v.0)));
    }
}

/// Marks what the assignment of `id` reads.
fn visit(
    program: &Program,
    pos: &HashMap<usize, (usize, usize)>,
    Ghost(all): Ghost<Set<usize>>,
    id: VarId,
    used: &mut HashSet<usize>,
    stack: &mut Vec<VarId>,
)
    requires
        program@.well_formed(),
        all == pos@.dom(),
        all.finite(),
        forall|k: usize| #[trigger]
            pos@.contains_key(k) ==> program@.assigns(pos@[k].0 as int, pos@[k].1 as int, VarId(k)),
        forall|b: int, i: int, v: VarId| #[trigger] program@.assigns(b, i, v) ==> pos@.contains_key(v.0),
        marking(program@, old(used)@, old(stack)@, Some(id)),
        old(used)@.contains(id.0),
        old(used)@.subset_of(all),
    ensures
        marking(program@, final(used)@, final(stack)@, None),
        old(used)@.subset_of(final(used)@),
        final(used)@.subset_of(all),
        effort(all, final(used)@, final(stack)@) <= effort(all, old(used)@, old(stack)@),
{
    let ghost p = program@;
    match pos.get(&id.0) {
        Some(place) => {
            let b: usize = place.0;
            let i: usize = place.1;
            assert(p.assigns(b as int, i as int, id));
            if let Instruction::Assignment { id: _, value } = &program.blocks[b].instructions[i] {
                proof {
                    assert forall|v: VarId| #[trigger] value@.uses().contains(v) implies p.depends(id, v)
                        && all.contains(v.0) by {
                        assert(p.reads(b as int, i as int, v));
                        assert(p.defined(v));
                        let (db, di) = choose|db: int, di: int| p.assigns(db, di, v);
                        assert(pos@.contains_key(v.0));
                    }
                }
                mark_uses(Ghost(p), Ghost(id), Ghost(all), value, used, stack);
                proof {
                    lemma_visited(p, used@, stack@, id, b as int, i as int);
                }
            }
        },
        None => {
            proof {
                if p.defined(id) {
                    let (db, di) = choose|db: int, di: int| p.assigns(db, di, id);
                    assert(pos@.contains_key(id.0));
                }
                lemma_unassigned(p, used@, stack@, id);
            }
        },
    }
}

/// Finds the values that something observable depends on.
fn find_live(program: &Program) -> (used: HashSet<usize>)
    requires
        program@.well_formed(),
    ensures
        forall|v: VarId| used@.contains(v.0) <==> program@.live(v),
{
    let pos: HashMap<usize, (usize, usize)> = index_definitions(program);
    let ghost all = pos@.dom();
    let mut used: HashSet<usize> = HashSet::new();
    let mut stack: Vec<VarId> = Vec::new();
    mark_roots(program, Ghost(all), &mut used, &mut stack);
    while stack.len() > 0
        invariant
            program@.well_formed(),
            all == pos@.dom(),
            all.finite(),
            forall|k: usize| #[trigger]
                pos@.contains_key(k) ==> program@.assigns(pos@[k].0 as int, pos@[k].1 as int, VarId(k)),
            forall|b: int, i: int, v: VarId| #[trigger] program@.assigns(b, i, v) ==> pos@.contains_key(v.0),
            marking(program@, used@, stack@, None),
            used@.subset_of(all),
            forall|v: VarId| program@.root(v) ==> used@.contains(v.0),
        decreases effort(all, used@, stack@),
    {
        proof {
            vstd::set_lib::lemma_len_subset(used@, all);
            lemma_after_pop(program@, used@, stack@);
        }
        let ghost before = effort(all, used@, stack@);
        let id: VarId = stack.pop().unwrap();
        assert(effort(all, used@, stack@) == before - 1);
        visit(program, &pos, Ghost(all), id, &mut used, &mut stack);
        proof {
            vstd::set_lib::lemma_len_subset(used@, all);
        }
    }
    proof {
        assert(stack@ =~= Seq::<VarId>::empty());
        assert forall|v: VarId| used@.contains(v.0) <==> program@.live(v) by {
            lemma_search_done(program@, used@, v);
        }
    }
    used
}

/// Removes from a block the assignments to values that are not in `used`.
/// Returns whether one was removed.
fn prune_block(block: &mut Block, used: &HashSet<usize>, Ghost(p): Ghost<ProgramView>) -> (removed: bool)
    requires
        forall|v: VarId| used@.contains(v.0) <==> p.live(v),
    ensures
        final(block)@.instructions == retained(old(block)@.instructions, p.keeper()),
        final(block)@.prev == old(block)@.prev,
        final(block)@.next == old(block)@.next,
        removed == (final(block)@.instructions.len() != old(block)@.instructions.len()),
{
    let mut kept: Vec<Instruction> = Vec::new();
    let ghost whole = block@.instructions;
    let n: usize = block.instructions.len();
    let mut i: usize = 0;
    while i < n
        invariant
            i <= n,
            n == block.instructions@.len(),
            n == whole.len(),
            block.prev == old(block).prev,
            block.next == old(block).next,
            whole == old(block)@.instructions,
            forall|v: VarId| used@.contains(v.0) <==> p.live(v),
            forall|j: int| i <= j < n ==> (#[trigger] block.instructions@[j])@ == whole[j],
            steps(kept@) == retained(whole.take(i as int), p.keeper()),
        decreases n - i,
    {
        let mut ins: Instruction = Instruction::Yield;
        std::mem::swap(&mut ins, &mut block.instructions[i]);
        let keep: bool = match &ins {
            Instruction::Assignment { id, value } => used.contains(&id.0),
            _ => true,
        };
        proof {
            assert(ins@ == whole[i as int]);
            assert(keep == p.keeps(ins@));
            assert(whole.take(i as int + 1).drop_last() =~= whole.take(i as int));
            assert(whole.take(i as int + 1).last() == whole[i as int]);
        }
        let ghost before = kept@;
        if keep {
            kept.push(ins);
            proof {
                assert(steps(kept@) =~= steps(before).push(whole[i as int]));
            }
        }
        i = i + 1;
    }
    proof {
        assert(whole.take(n as int) =~= whole);
        lemma_retained_len(whole, p.keeper());
    }
    let removed: bool = kept.len() != n;
    block.instructions = kept;
    removed
}

/// Removes every assignment that nothing observable depends on: what stays
/// are the calls of `store`, what the branches and returns read, and what
/// those in turn are computed from. Returns whether anything was removed.
pub fn remove_unused_variables(program: &mut Program) -> (removed_any: bool)
    requires
        old(program)@.well_formed(),
    ensures
        final(program)@ == old(program)@.pruned(),
        final(program)@.well_formed(),
        removed_any == old(program)@.has_dead(),
{
    let used: HashSet<usize> = find_live(program);
    let ghost p = program@;
    let mut removed_any: bool = false;
    let n: usize = program.blocks.len();
    let mut b: usize = 0;
    while b < n
        invariant
            b <= n,
            n == program.blocks@.len(),
            n == p.blocks.len(),
            p == old(program)@,
            forall|v: VarId| used@.contains(v.0) <==> p.live(v),
            forall|c: int| 0 <= c < b ==> (#[trigger] program.blocks@[c])@ == p.pruned().blocks[c],
            forall|c: int| b <= c < n ==> (#[trigger] program.blocks@[c])@ == p.blocks[c],
            removed_any == exists|c: int, i: int| c < b && p.has(c, i) && !p.keeps(#[trigger] p.at(c, i)),
        decreases n - b,
    {
        let removed: bool = prune_block(&mut program.blocks[b], &used, Ghost(p));
        proof {
            let s = p.blocks[b as int].instructions;
            lemma_retained_all(s, p.keeper());
            lemma_retained_len(s, p.keeper());
            if removed {
                let i = choose|i: int| 0 <= i < s.len() && !(p.keeper())(#[trigger] s[i]);
                assert(p.has(b as int, i) && !p.keeps(p.at(b as int, i)));
            } else {
                assert(retained(s, p.keeper()) == s);
                assert forall|i: int| p.has(b as int, i) implies p.keeps(#[trigger] p.at(b as int, i)) by {
                    assert((p.keeper())(s[i]));
                }
            }
        }
        if removed {
            removed_any = true;
        }
        b = b + 1;
    }
    proof {
        assert(program@.blocks =~= p.pruned().blocks);
        lemma_pruned_well_formed(p);
    }
    removed_any
}

/// Improves the program: folds the copies into their uses, then removes
/// what nothing observable depends on.
pub fn optimize(program: &mut Program)
    requires
        old(program)@.well_formed(),
    ensures
        final(program)@ == old(program)@.inlined().pruned(),
        final(program)@.well_formed(),
        final(program)@.blocks.len() == old(program)@.blocks.len(),
{
    crate::ir::inline::inline(program);
    remove_unused_variables(program);
}

} // verus!
