//! Register allocation by colouring the interference graph.
//!
//! The values of a program are the nodes of a graph, except that a phi and
//! its operands are one node. Two nodes have an edge if a value of one is
//! touched while a value of the other is still read later. The nodes are
//! coloured with the 16 general registers.
use vstd::prelude::*;
use crate::error::Error;
use crate::ir::inline::{assigned_ids, find_var};
use crate::ir::model::{count_false, lemma_count_false_update};
use crate::ir::types::{
    Block,
    BlockId,
    BlockView,
    Instruction,
    Operand,
    Program,
    ProgramView,
    Step,
    Value,
    VarId,
    VarOrConst,
    VarValue,
    operands,
};
use crate::mips::types::Register;

verus! {

/// How many colours there are: the machine's general registers.
pub const COLORS: usize = 16;

/// An interference graph as a mathematical value. Its nodes are numbered
/// from 0; `present[a]` says whether node `a` is in the graph, and `adj[a]`
/// lists the nodes that `a` has an edge to.
pub struct Edges {
    pub present: Seq<bool>,
    pub adj: Seq<Seq<usize>>,
}

/// How many entries of a sequence are true.
pub open spec fn count(present: Seq<bool>) -> nat
    decreases present.len(),
{
    if present.len() == 0 {
        0
    } else {
        count(present.drop_last()) + if present.last() {
            1nat
        } else {
            0nat
        }
    }
}

/// A sequence without the value `x`.
pub open spec fn without_value(s: Seq<usize>, x: int) -> Seq<usize>
    decreases s.len(),
{
    if s.len() == 0 {
        s
    } else if s.last() == x {
        without_value(s.drop_last(), x)
    } else {
        without_value(s.drop_last(), x).push(s.last())
    }
}

/// Whether some node of `edges` has the colour `c`.
pub open spec fn taken(colors: Seq<usize>, edges: Seq<usize>, c: usize) -> bool {
    exists|k: int| 0 <= k < edges.len() && colors[#[trigger] edges[k] as int] == c
}

/// The smallest colour from `c` on that no node of `edges` has; 16 if there is none.
pub open spec fn free_from(colors: Seq<usize>, edges: Seq<usize>, c: usize) -> usize
    decreases 16 - c,
{
    if c >= 16 {
        16
    } else if !taken(colors, edges, c) {
        c
    } else {
        free_from(colors, edges, (c + 1) as usize)
    }
}

impl Edges {
    /// How many numbers the graph has for nodes.
    pub open spec fn size(self) -> nat {
        self.present.len()
    }

    /// Whether `a` is a node of the graph.
    pub open spec fn has_node(self, a: usize) -> bool {
        a < self.present.len() && self.present[a as int]
    }

    /// Whether the graph has an edge from `a` to `b`.
    pub open spec fn has_edge(self, a: usize, b: usize) -> bool {
        a < self.adj.len() && self.adj[a as int].contains(b)
    }

    /// No node has an edge to itself.
    pub open spec fn irreflexive(self) -> bool {
        forall|a: usize| !self.has_edge(a, a)
    }

    /// With every edge the graph has the edge back.
    pub open spec fn symmetric(self) -> bool {
        forall|a: usize, b: usize| #[trigger] self.has_edge(a, b) ==> self.has_edge(b, a)
    }

    /// Edges join nodes of the graph, and no edge is listed twice.
    pub open spec fn well_formed(self) -> bool {
        &&& self.adj.len() == self.present.len()
        &&& self.present.len() <= usize::MAX
        &&& forall|a: usize, b: usize| #[trigger]
            self.has_edge(a, b) ==> self.has_node(a) && self.has_node(b)
        &&& forall|a: int| 0 <= a < self.adj.len() ==> (#[trigger] self.adj[a]).no_duplicates()
        &&& self.irreflexive()
        &&& self.symmetric()
    }

    /// The graph of `n` numbers without a node.
    pub open spec fn empty(n: nat) -> Edges {
        Edges { present: Seq::new(n, |i: int| false), adj: Seq::new(n, |i: int| Seq::empty()) }
    }

    /// The graph with `a` as a node.
    pub open spec fn with_node(self, a: usize) -> Edges {
        Edges { present: self.present.update(a as int, true), ..self }
    }

    /// The list of `a` with `b` added, if it is not there.
    pub open spec fn joined(self, a: usize, b: usize) -> Seq<usize> {
        if self.adj[a as int].contains(b) {
            self.adj[a as int]
        } else {
            self.adj[a as int].push(b)
        }
    }

    /// The graph with an edge between `a` and `b`, both made nodes; the same
    /// graph if `a` is `b`.
    pub open spec fn with_edge(self, a: usize, b: usize) -> Edges {
        if a == b {
            self
        } else {
            Edges {
                present: self.present.update(a as int, true).update(b as int, true),
                adj: self.adj.update(a as int, self.joined(a, b)).update(b as int, self.joined(b, a)),
            }
        }
    }

    /// The graph without the node `node` and its edges.
    pub open spec fn without(self, node: int) -> Edges {
        Edges {
            present: self.present.update(node, false),
            adj: Seq::new(
                self.adj.len(),
                |a: int|
                    if a == node {
                        Seq::empty()
                    } else {
                        without_value(self.adj[a], node)
                    },
            ),
        }
    }

    /// The first node from `from` on that has fewer than 16 edges.
    pub open spec fn pick_from(self, from: int) -> Option<int>
        decreases self.present.len() - from,
    {
        if from < 0 || from >= self.present.len() {
            None
        } else if self.present[from] && self.adj[from].len() < 16 {
            Some(from)
        } else {
            self.pick_from(from + 1)
        }
    }

    /// The node that is taken out next: the first with fewer than 16 edges.
    pub open spec fn pick(self) -> Option<int> {
        self.pick_from(0)
    }

    /// What is left of the graph when nodes with fewer than 16 edges have
    /// been taken out, the first such node each time, until there is none.
    pub open spec fn reduced(self) -> Edges
        decreases count(self.present),
    {
        match self.pick() {
            None => self,
            Some(node) => {
                proof {
                    lemma_pick(self, 0);
                    lemma_count_update(self.present, node);
                }
                self.without(node).reduced()
            },
        }
    }

    /// Whether taking out nodes with fewer than 16 edges empties the graph.
    pub open spec fn simplifies(self) -> bool {
        count(self.reduced().present) == 0
    }

    /// The colours after colouring the graph: the nodes get their colours in
    /// the reverse of the order in which they are taken out, each the
    /// smallest colour that none of its neighbours has by then.
    pub open spec fn coloring(self, colors: Seq<usize>) -> Seq<usize>
        decreases count(self.present),
    {
        match self.pick() {
            None => colors,
            Some(node) => {
                proof {
                    lemma_pick(self, 0);
                    lemma_count_update(self.present, node);
                }
                let inner = self.without(node).coloring(colors);
                inner.update(node, free_from(inner, self.adj[node], 0))
            },
        }
    }
}

/// Taking a true entry out lowers the count by one.
pub proof fn lemma_count_update(present: Seq<bool>, i: int)
    requires
        0 <= i < present.len(),
        present[i],
    ensures
        count(present.update(i, false)) + 1 == count(present),
    decreases present.len(),
{
    if i == present.len() - 1 {
        assert(present.update(i, false).drop_last() =~= present.drop_last());
    } else {
        assert(present.update(i, false).drop_last() =~= present.drop_last().update(i, false));
        lemma_count_update(present.drop_last(), i);
    }
}

/// A sequence with no true entry counts zero, and the other way round.
pub proof fn lemma_count_zero(present: Seq<bool>)
    ensures
        count(present) == 0 <==> (forall|i: int| 0 <= i < present.len() ==> !present[i]),
    decreases present.len(),
{
    if present.len() > 0 {
        lemma_count_zero(present.drop_last());
        if count(present) == 0 {
            assert forall|i: int| 0 <= i < present.len() implies !present[i] by {
                if i < present.len() - 1 {
                    assert(present.drop_last()[i] == present[i]);
                }
            }
        } else {
            if forall|i: int| 0 <= i < present.len() ==> !present[i] {
                assert forall|i: int| 0 <= i < present.drop_last().len() implies !present.drop_last()[i] by {
                    assert(present.drop_last()[i] == present[i]);
                }
                assert(!present.last());
            }
        }
    }
}

/// What `pick_from` finds is a node with fewer than 16 edges, and no node
/// before it from `from` on is one; it finds none only if there is none.
pub proof fn lemma_pick(g: Edges, from: int)
    requires
        0 <= from,
    ensures
        match g.pick_from(from) {
            Some(node) => from <= node < g.present.len() && g.present[node] && g.adj[node].len() < 16
                && forall|a: int| from <= a < node ==> !(g.present[a] && g.adj[a].len() < 16),
            None => forall|a: int|
                from <= a < g.present.len() ==> !(g.present[a] && g.adj[a].len() < 16),
        },
    decreases g.present.len() - from,
{
    if from < g.present.len() && !(g.present[from] && g.adj[from].len() < 16) {
        lemma_pick(g, from + 1);
    }
}

/// What `without_value` keeps: the values other than `x`, none twice.
pub proof fn lemma_without_value(s: Seq<usize>, x: int)
    requires
        s.no_duplicates(),
    ensures
        without_value(s, x).no_duplicates(),
        forall|y: usize| #[trigger] without_value(s, x).contains(y) <==> s.contains(y) && y != x,
        without_value(s, x).len() <= s.len(),
        (forall|i: int| 0 <= i < s.len() ==> s[i] != x) ==> without_value(s, x) == s,
    decreases s.len(),
{
    if s.len() > 0 {
        let head = s.drop_last();
        lemma_without_value(head, x);
        let w = without_value(head, x);
        assert forall|y: usize| #[trigger]
            without_value(s, x).contains(y) <==> s.contains(y) && y != x by {
            if s.contains(y) && y != x {
                let i = choose|i: int| 0 <= i < s.len() && s[i] == y;
                if i < head.len() {
                    assert(head[i] == y);
                    assert(head.contains(y));
                    assert(w.contains(y));
                    if s.last() != x {
                        let j = choose|j: int| 0 <= j < w.len() && w[j] == y;
                        assert(w.push(s.last())[j] == y);
                    }
                } else {
                    assert(w.push(s.last())[w.len() as int] == y);
                }
            }
            if without_value(s, x).contains(y) {
                let j = choose|j: int| 0 <= j < without_value(s, x).len() && without_value(s, x)[j] == y;
                if s.last() == x || j < w.len() {
                    assert(w[j] == y);
                    assert(w.contains(y));
                    assert(head.contains(y));
                    let i = choose|i: int| 0 <= i < head.len() && head[i] == y;
                    assert(s[i] == y);
                } else {
                    assert(s[s.len() - 1] == y);
                }
            }
        }
        if s.last() != x {
            assert(!w.contains(s.last())) by {
                if w.contains(s.last()) {
                    assert(head.contains(s.last()));
                    let i = choose|i: int| 0 <= i < head.len() && head[i] == s.last();
                    assert(s[i] == s[s.len() - 1]);
                }
            }
            assert(w.push(s.last()).no_duplicates()) by {
                assert forall|i: int, j: int|
                    0 <= i < w.len() + 1 && 0 <= j < w.len() + 1 && i != j implies w.push(s.last())[i]
                    != w.push(s.last())[j] by {
                    if i < w.len() && j < w.len() {
                    } else if i < w.len() {
                        assert(w.contains(w[i]));
                    } else {
                        assert(w.contains(w[j]));
                    }
                }
            }
        }
        if forall|i: int| 0 <= i < s.len() ==> s[i] != x {
            assert forall|i: int| 0 <= i < head.len() implies head[i] != x by {
                assert(head[i] == s[i]);
            }
            assert(s[s.len() - 1] != x);
            assert(w.push(s.last()) =~= s);
        }
    }
}

/// What the edges of a graph are after an edge has been added.
pub proof fn lemma_with_edge(g: Edges, a: usize, b: usize)
    requires
        g.well_formed(),
        a < g.size(),
        b < g.size(),
    ensures
        g.with_edge(a, b).well_formed(),
        g.with_edge(a, b).size() == g.size(),
        forall|c: usize, d: usize| #[trigger]
            g.with_edge(a, b).has_edge(c, d) <==> g.has_edge(c, d) || (a != b && ((c == a && d == b) || (c
                == b && d == a))),
        forall|c: usize|
            g.with_edge(a, b).has_node(c) <==> g.has_node(c) || (a != b && (c == a || c == b)),
{
    let n = g.with_edge(a, b);
    if a != b {
        assert forall|c: usize, d: usize| #[trigger]
            n.has_edge(c, d) <==> g.has_edge(c, d) || (c == a && d == b) || (c == b && d == a) by {
            if c < g.adj.len() {
                lemma_joined(g.adj[a as int], b, d);
                lemma_joined(g.adj[b as int], a, d);
            }
        }
        assert forall|c: int| 0 <= c < n.adj.len() implies (#[trigger] n.adj[c]).no_duplicates() by {
            lemma_joined(g.adj[a as int], b, b);
            lemma_joined(g.adj[b as int], a, a);
            assert(g.adj[c].no_duplicates());
        }
        assert(n.irreflexive()) by {
            assert forall|c: usize| !n.has_edge(c, c) by {
                assert(!g.has_edge(c, c));
            }
        }
        assert(n.symmetric()) by {
            assert forall|c: usize, d: usize| #[trigger] n.has_edge(c, d) implies n.has_edge(d, c) by {
                if g.has_edge(c, d) {
                    assert(g.has_edge(d, c));
                }
            }
        }
        assert forall|c: usize, d: usize| #[trigger] n.has_edge(c, d) implies n.has_node(c)
            && n.has_node(d) by {
            if g.has_edge(c, d) {
                assert(g.has_node(c) && g.has_node(d));
            }
        }
    }
}

/// What a list holds after a value has been added if it was not there.
pub proof fn lemma_joined(s: Seq<usize>, x: usize, y: usize)
    ensures
        (if s.contains(x) {
            s
        } else {
            s.push(x)
        }).contains(y) <==> s.contains(y) || y == x,
        s.no_duplicates() ==> (if s.contains(x) {
            s
        } else {
            s.push(x)
        }).no_duplicates(),
{
    if !s.contains(x) {
        let t = s.push(x);
        if s.contains(y) {
            let i = choose|i: int| 0 <= i < s.len() && s[i] == y;
            assert(t[i] == y);
        }
        if y == x {
            assert(t[s.len() as int] == y);
        }
        if t.contains(y) {
            let i = choose|i: int| 0 <= i < t.len() && t[i] == y;
            if i < s.len() {
                assert(s[i] == y);
            }
        }
        if s.no_duplicates() {
            assert forall|i: int, j: int| 0 <= i < t.len() && 0 <= j < t.len() && i != j implies t[i]
                != t[j] by {
                if i < s.len() && j < s.len() {
                } else if i < s.len() {
                    assert(s.contains(s[i]));
                } else {
                    assert(s.contains(s[j]));
                }
            }
        }
    }
}

/// What the edges of a graph are after a node has been taken out.
pub proof fn lemma_without(g: Edges, node: int)
    requires
        g.well_formed(),
        0 <= node < g.size(),
    ensures
        g.without(node).well_formed(),
        g.without(node).size() == g.size(),
        forall|c: usize, d: usize| #[trigger]
            g.without(node).has_edge(c, d) <==> g.has_edge(c, d) && c != node && d != node,
        forall|c: usize| g.without(node).has_node(c) <==> g.has_node(c) && c != node,
        forall|c: int|
            0 <= c < g.size() && c != node && !g.adj[c].contains(node as usize) ==> (
            #[trigger] g.without(node).adj[c]) == g.adj[c],
{
    let n = g.without(node);
    assert forall|c: int| 0 <= c < n.adj.len() implies (#[trigger] n.adj[c]).no_duplicates() by {
        assert(g.adj[c].no_duplicates());
        lemma_without_value(g.adj[c], node);
    }
    assert forall|c: usize, d: usize| #[trigger]
        n.has_edge(c, d) <==> g.has_edge(c, d) && c != node && d != node by {
        if c < g.adj.len() {
            assert(g.adj[c as int].no_duplicates());
            lemma_without_value(g.adj[c as int], node);
            if c != node {
                assert(n.adj[c as int].contains(d) <==> g.adj[c as int].contains(d) && d != node);
            }
        }
    }
    assert(n.irreflexive()) by {
        assert forall|c: usize| !n.has_edge(c, c) by {
            assert(!g.has_edge(c, c));
        }
    }
    assert(n.symmetric()) by {
        assert forall|c: usize, d: usize| #[trigger] n.has_edge(c, d) implies n.has_edge(d, c) by {
            assert(g.has_edge(d, c));
        }
    }
    assert forall|c: usize, d: usize| #[trigger] n.has_edge(c, d) implies n.has_node(c) && n.has_node(
        d,
    ) by {
        assert(g.has_node(c) && g.has_node(d));
    }
    assert forall|c: int|
        0 <= c < g.size() && c != node && !g.adj[c].contains(node as usize) implies (#[trigger] n.adj[c])
        == g.adj[c] by {
        assert(g.adj[c].no_duplicates());
        lemma_without_value(g.adj[c], node);
        assert forall|i: int| 0 <= i < g.adj[c].len() implies g.adj[c][i] != node by {
            assert(g.adj[c].contains(g.adj[c][i]));
        }
    }
}

/// Among fewer than `n` nodes, not all of the first `n` colours are taken.
pub proof fn lemma_colors_taken(colors: Seq<usize>, edges: Seq<usize>, n: usize)
    requires
        forall|c: usize| c < n ==> taken(colors, edges, c),
    ensures
        edges.len() >= n,
    decreases n,
{
    if n > 0 {
        let top = (n - 1) as usize;
        assert(taken(colors, edges, top));
        let k = choose|k: int| 0 <= k < edges.len() && colors[#[trigger] edges[k] as int] == top;
        let rest = edges.remove(k);
        assert forall|c: usize| c < top implies taken(colors, rest, c) by {
            assert(taken(colors, edges, c));
            let j = choose|j: int| 0 <= j < edges.len() && colors[#[trigger] edges[j] as int] == c;
            if j < k {
                assert(colors[rest[j] as int] == c);
            } else {
                assert(colors[rest[j - 1] as int] == c);
            }
        }
        lemma_colors_taken(colors, rest, top);
    }
}

/// The colour that `free_from` finds is free, and the smallest such from `c` on.
pub proof fn lemma_free_from(colors: Seq<usize>, edges: Seq<usize>, c: usize)
    requires
        c <= 16,
    ensures
        c <= free_from(colors, edges, c) <= 16,
        free_from(colors, edges, c) < 16 ==> !taken(colors, edges, free_from(colors, edges, c)),
        forall|d: usize| c <= d < free_from(colors, edges, c) ==> taken(colors, edges, d),
    decreases 16 - c,
{
    if c < 16 && taken(colors, edges, c) {
        lemma_free_from(colors, edges, (c + 1) as usize);
    }
}

/// A colouring gives every node of the graph one of the 16 colours, gives
/// the two ends of every edge different colours, and leaves the entries of
/// the numbers that are no nodes as they were.
pub proof fn lemma_coloring_proper(g: Edges, colors: Seq<usize>)
    requires
        g.well_formed(),
        g.simplifies(),
        colors.len() == g.size(),
    ensures
        g.coloring(colors).len() == colors.len(),
        forall|a: usize| g.has_node(a) ==> (#[trigger] g.coloring(colors)[a as int]) < 16,
        forall|a: usize, b: usize| #[trigger]
            g.has_edge(a, b) ==> g.coloring(colors)[a as int] != g.coloring(colors)[b as int],
        forall|a: int|
            0 <= a < g.size() && !g.present[a] ==> (#[trigger] g.coloring(colors)[a]) == colors[a],
    decreases count(g.present),
{
    match g.pick() {
        None => {
            lemma_count_zero(g.present);
            assert forall|a: usize, b: usize| #[trigger] g.has_edge(a, b) implies false by {
                assert(g.has_node(a));
            }
        },
        Some(node) => {
            lemma_pick(g, 0);
            lemma_count_update(g.present, node);
            lemma_without(g, node);
            let rest = g.without(node);
            lemma_coloring_proper(rest, colors);
            let inner = rest.coloring(colors);
            let edges = g.adj[node];
            let c = free_from(inner, edges, 0);
            lemma_free_from(inner, edges, 0);
            if c >= 16 {
                lemma_colors_taken(inner, edges, 16);
            }
            let done = g.coloring(colors);
            assert(done == inner.update(node, c));
            assert forall|a: usize, b: usize| #[trigger] g.has_edge(a, b) implies done[a as int]
                != done[b as int] by {
                assert(g.has_node(a) && g.has_node(b));
                assert(!g.has_edge(a, a));
                if a == node {
                    let k = choose|k: int| 0 <= k < edges.len() && edges[k] == b;
                    if inner[b as int] == c {
                        assert(inner[edges[k] as int] == c);
                        assert(taken(inner, edges, c));
                    }
                } else if b == node {
                    assert(g.has_edge(b, a));
                    let k = choose|k: int| 0 <= k < edges.len() && edges[k] == a;
                    if inner[a as int] == c {
                        assert(inner[edges[k] as int] == c);
                        assert(taken(inner, edges, c));
                    }
                } else {
                    assert(rest.has_edge(a, b));
                }
            }
            assert forall|a: usize| g.has_node(a) implies (#[trigger] done[a as int]) < 16 by {
                if a != node {
                    assert(rest.has_node(a));
                }
            }
        },
    }
}

/// The interference graph: which nodes it has, and for each the nodes that
/// it has an edge to.
pub struct Graph {
    present: Vec<bool>,
    adj: Vec<Vec<usize>>,
}

impl View for Graph {
    type V = Edges;

    closed spec fn view(&self) -> Edges {
        Edges { present: self.present@, adj: Seq::new(self.adj@.len(), |a: int| self.adj@[a]@) }
    }
}

/// Whether a list holds a value.
fn holds(list: &Vec<usize>, x: usize) -> (r: bool)
    ensures
        r == list@.contains(x),
{
    let mut i: usize = 0;
    while i < list.len()
        invariant
            i <= list.len(),
            forall|k: int| 0 <= k < i ==> list@[k] != x,
        decreases list.len() - i,
    {
        if list[i] == x {
            return true;
        }
        i = i + 1;
    }
    false
}

/// Takes a value out of a list in which nothing stands twice.
fn take_out(list: &mut Vec<usize>, x: usize)
    requires
        old(list)@.no_duplicates(),
    ensures
        final(list)@ == without_value(old(list)@, x as int),
{
    let mut i: usize = 0;
    while i < list.len()
        invariant
            i <= list.len(),
            list@ == old(list)@,
            list@.no_duplicates(),
            forall|k: int| 0 <= k < i ==> list@[k] != x,
        decreases list.len() - i,
    {
        if list[i] == x {
            proof {
                lemma_without_remove(list@, i as int);
            }
            list.remove(i);
            return ;
        }
        i = i + 1;
    }
    proof {
        lemma_without_value(list@, x as int);
    }
}

/// Taking out the value at a place of a list without duplicates is
/// removing that place.
pub proof fn lemma_without_remove(s: Seq<usize>, i: int)
    requires
        s.no_duplicates(),
        0 <= i < s.len(),
    ensures
        without_value(s, s[i] as int) == s.remove(i),
    decreases s.len(),
{
    let x = s[i] as int;
    let head = s.drop_last();
    if i == s.len() - 1 {
        lemma_without_value(head, x);
        assert forall|k: int| 0 <= k < head.len() implies head[k] != x by {
            assert(s[k] != s[i]);
        }
        assert(s.remove(i) =~= head);
    } else {
        lemma_without_remove(head, i);
        assert(s[s.len() - 1] != s[i]);
        assert(head.remove(i).push(s.last()) =~= s.remove(i));
    }
}

impl Graph {
    /// A graph with room for `n` nodes and none in it.
    pub fn new(n: usize) -> (g: Graph)
        ensures
            g@ == Edges::empty(n as nat),
            g@.well_formed(),
    {
        let mut present: Vec<bool> = Vec::new();
        let mut adj: Vec<Vec<usize>> = Vec::new();
        let mut i: usize = 0;
        while i < n
            invariant
                i <= n,
                present@ == Seq::new(i as nat, |k: int| false),
                adj@.len() == i,
                forall|k: int| 0 <= k < i ==> (#[trigger] adj@[k])@ == Seq::<usize>::empty(),
            decreases n - i,
        {
            present.push(false);
            adj.push(Vec::new());
            i = i + 1;
            assert(present@ =~= Seq::new(i as nat, |k: int| false));
        }
        let g = Graph { present, adj };
        assert(g@.adj =~= Edges::empty(n as nat).adj);
        g
    }

    /// How many numbers the graph has for nodes.
    pub fn size(&self) -> (n: usize)
        requires
            self@.well_formed(),
        ensures
            n == self@.size(),
    {
        self.present.len()
    }

    /// Makes `node` a node of the graph.
    pub fn add_node(&mut self, node: usize)
        requires
            old(self)@.well_formed(),
            node < old(self)@.size(),
        ensures
            final(self)@ == old(self)@.with_node(node),
            final(self)@.well_formed(),
    {
        self.present.set(node, true);
        proof {
            assert(self@.adj =~= old(self)@.adj);
            assert forall|a: usize, b: usize| #[trigger] self@.has_edge(a, b) implies self@.has_node(a)
                && self@.has_node(b) by {
                assert(old(self)@.has_edge(a, b));
            }
            assert forall|a: usize, b: usize| #[trigger] self@.has_edge(a, b) implies self@.has_edge(
                b,
                a,
            ) by {
                assert(old(self)@.has_edge(a, b));
            }
            assert forall|a: usize| !self@.has_edge(a, a) by {
                assert(!old(self)@.has_edge(a, a));
            }
        }
    }

    /// Adds an edge between two nodes, making both nodes of the graph.
    /// An edge from a node to itself is not added.
    pub fn add_edge(&mut self, node1: usize, node2: usize)
        requires
            old(self)@.well_formed(),
            node1 < old(self)@.size(),
            node2 < old(self)@.size(),
        ensures
            final(self)@ == old(self)@.with_edge(node1, node2),
            final(self)@.well_formed(),
    {
        if node1 == node2 {
            return ;
        }
        proof {
            lemma_with_edge(self@, node1, node2);
        }
        self.present.set(node1, true);
        self.present.set(node2, true);
        if !holds(&self.adj[node1], node2) {
            self.adj[node1].push(node2);
        }
        if !holds(&self.adj[node2], node1) {
            self.adj[node2].push(node1);
        }
        assert(self@.adj =~= old(self)@.with_edge(node1, node2).adj);
    }

    /// Takes a node out of the graph with its edges, and returns the nodes
    /// that it had an edge to.
    pub fn remove_node(&mut self, node: usize) -> (edges: Vec<usize>)
        requires
            old(self)@.well_formed(),
            old(self)@.has_node(node),
        ensures
            final(self)@ == old(self)@.without(node as int),
            final(self)@.well_formed(),
            edges@ == old(self)@.adj[node as int],
    {
        proof {
            lemma_without(self@, node as int);
        }
        let mut edges: Vec<usize> = Vec::new();
        std::mem::swap(&mut edges, &mut self.adj[node]);
        self.present.set(node, false);
        let ghost before = old(self)@;
        let mut i: usize = 0;
        while i < edges.len()
            invariant
                i <= edges.len(),
                before == old(self)@,
                before.well_formed(),
                before.has_node(node),
                edges@ == before.adj[node as int],
                self.present@ == before.present.update(node as int, false),
                self.adj@.len() == before.adj.len(),
                forall|a: int|
                    0 <= a < before.adj.len() ==> (#[trigger] self.adj@[a])@ == if a == node {
                        Seq::<usize>::empty()
                    } else if exists|k: int| 0 <= k < i && edges@[k] == a {
                        without_value(before.adj[a], node as int)
                    } else {
                        before.adj[a]
                    },
            decreases edges.len() - i,
        {
            let e: usize = edges[i];
            proof {
                assert(before.adj[node as int].contains(e));
                assert(before.has_edge(node, e));
                assert(before.has_node(e));
                assert(!before.has_edge(node, node));
                assert(before.adj[e as int].no_duplicates());
                assert(!(exists|k: int| 0 <= k < i && edges@[k] == e)) by {
                    assert(edges@.no_duplicates());
                }
            }
            take_out(&mut self.adj[e], node);
            i = i + 1;
            proof {
                assert forall|a: int| 0 <= a < before.adj.len() implies (#[trigger] self.adj@[a])@
                    == if a == node {
                    Seq::<usize>::empty()
                } else if exists|k: int| 0 <= k < i && edges@[k] == a {
                    without_value(before.adj[a], node as int)
                } else {
                    before.adj[a]
                } by {
                    if a == e {
                        assert(edges@[i - 1] == a);
                    } else if exists|k: int| 0 <= k < i && edges@[k] == a {
                        let k = choose|k: int| 0 <= k < i && edges@[k] == a;
                        assert(k < i - 1);
                    }
                }
            }
        }
        proof {
            assert forall|a: int| 0 <= a < before.adj.len() implies (#[trigger] self@.adj[a])
                == before.without(node as int).adj[a] by {
                if a != node && !(exists|k: int| 0 <= k < i && edges@[k] == a) {
                    if before.adj[a].contains(node) {
                        assert(before.has_edge(a as usize, node));
                        assert(before.has_edge(node, a as usize));
                        let k = choose|k: int| 0 <= k < edges@.len() && edges@[k] == a as usize;
                        assert(edges@[k] == a);
                    }
                }
            }
            assert(self@.adj =~= before.without(node as int).adj);
        }
        edges
    }

    /// The first node that has fewer than 16 edges.
    pub fn pick_node(&self) -> (r: Option<usize>)
        requires
            self@.well_formed(),
        ensures
            match r {
                Some(node) => self@.pick() == Some(node as int),
                None => self@.pick() is None,
            },
    {
        let mut i: usize = 0;
        while i < self.present.len()
            invariant
                i <= self.present.len(),
                self@.well_formed(),
                self@.pick_from(i as int) == self@.pick(),
            decreases self.present.len() - i,
        {
            if self.present[i] && self.adj[i].len() < COLORS {
                return Some(i);
            }
            i = i + 1;
        }
        None
    }

    /// Whether the graph has no node.
    pub fn is_empty(&self) -> (r: bool)
        requires
            self@.well_formed(),
        ensures
            r == (count(self@.present) == 0),
    {
        let mut i: usize = 0;
        while i < self.present.len()
            invariant
                i <= self.present.len(),
                forall|k: int| 0 <= k < i ==> !self.present@[k],
            decreases self.present.len() - i,
        {
            if self.present[i] {
                proof {
                    lemma_count_zero(self@.present);
                }
                return false;
            }
            i = i + 1;
        }
        proof {
            lemma_count_zero(self@.present);
        }
        true
    }
}

/// The smallest colour that no node of `edges` has; 16 if each is taken.
fn free_color(colors: &Vec<usize>, edges: &Vec<usize>) -> (c: usize)
    requires
        forall|k: int| 0 <= k < edges@.len() ==> edges@[k] < colors@.len(),
    ensures
        c == free_from(colors@, edges@, 0),
{
    let mut used: Vec<bool> = Vec::new();
    let mut c: usize = 0;
    while c < 16
        invariant
            c <= 16,
            used@.len() == c,
            forall|d: int| 0 <= d < c ==> !used@[d],
        decreases 16 - c,
    {
        used.push(false);
        c = c + 1;
    }
    let mut k: usize = 0;
    while k < edges.len()
        invariant
            k <= edges.len(),
            used@.len() == 16,
            forall|j: int| 0 <= j < edges@.len() ==> edges@[j] < colors@.len(),
            forall|d: usize|
                d < 16 ==> (used@[d as int] <==> exists|j: int|
                    0 <= j < k && colors@[#[trigger] edges@[j] as int] == d),
        decreases edges.len() - k,
    {
        let color: usize = colors[edges[k]];
        let ghost before = used@;
        if color < 16 {
            used.set(color, true);
        }
        k = k + 1;
        proof {
            assert forall|d: usize| d < 16 implies (used@[d as int] <==> exists|j: int|
                0 <= j < k && colors@[#[trigger] edges@[j] as int] == d) by {
                if d == color {
                    assert(colors@[edges@[k - 1] as int] == d);
                } else if used@[d as int] {
                    assert(before[d as int]);
                    let j = choose|j: int| 0 <= j < k - 1 && colors@[#[trigger] edges@[j] as int] == d;
                    assert(0 <= j < k && colors@[edges@[j] as int] == d);
                } else if exists|j: int| 0 <= j < k && colors@[#[trigger] edges@[j] as int] == d {
                    let j = choose|j: int| 0 <= j < k && colors@[#[trigger] edges@[j] as int] == d;
                    assert(j < k - 1);
                }
            }
        }
    }
    let mut c: usize = 0;
    while c < 16 && used[c]
        invariant
            c <= 16,
            used@.len() == 16,
            free_from(colors@, edges@, c) == free_from(colors@, edges@, 0),
            forall|d: usize|
                d < 16 ==> (used@[d as int] <==> exists|j: int|
                    0 <= j < edges@.len() && colors@[#[trigger] edges@[j] as int] == d),
        decreases 16 - c,
    {
        c = c + 1;
    }
    c
}

/// Colours the graph with 16 colours by taking out, as long as there is one,
/// the first node with fewer than 16 edges, and then giving the nodes, last
/// taken out first, the smallest colour that no neighbour has. Returns
/// whether every node could be taken out; if not, no colour is changed.
/// What is left in the graph are the nodes that could not be taken out.
pub fn color_graph(g: &mut Graph, colors: &mut Vec<usize>) -> (r: bool)
    requires
        old(g)@.well_formed(),
        old(colors)@.len() == old(g)@.size(),
    ensures
        r == old(g)@.simplifies(),
        final(g)@ == old(g)@.reduced(),
        final(g)@.well_formed(),
        final(colors)@ == if r {
            old(g)@.coloring(old(colors)@)
        } else {
            old(colors)@
        },
    decreases count(old(g)@.present),
{
    let node: usize = match g.pick_node() {
        None => {
            return g.is_empty();
        },
        Some(node) => node,
    };
    proof {
        lemma_pick(g@, 0);
        lemma_count_update(g@.present, node as int);
        lemma_without(g@, node as int);
    }
    let edges: Vec<usize> = g.remove_node(node);
    if !color_graph(g, colors) {
        return false;
    }
    proof {
        lemma_coloring_proper(old(g)@.without(node as int), old(colors)@);
        assert forall|k: int| 0 <= k < edges@.len() implies edges@[k] < colors@.len() by {
            assert(old(g)@.adj[node as int].contains(edges@[k]));
            assert(old(g)@.has_edge(node, edges@[k]));
            assert(old(g)@.has_node(edges@[k]));
        }
    }
    let color: usize = free_color(colors, &edges);
    colors.set(node, color);
    true
}

/// A phi: the value that it assigns and its operands.
pub struct Phi {
    pub id: VarId,
    pub operands: Vec<VarId>,
}

/// A phi as a mathematical value.
pub struct Join {
    pub id: VarId,
    pub operands: Seq<VarId>,
}

impl View for Phi {
    type V = Join;

    open spec fn view(&self) -> Join {
        Join { id: self.id, operands: self.operands@ }
    }
}

/// The phis of a list, each as a mathematical value.
pub open spec fn joins(phis: Seq<Phi>) -> Seq<Join> {
    Seq::new(phis.len(), |i: int| phis[i]@)
}

/// The phis among the steps, in order.
pub open spec fn phis_in(s: Seq<Step>) -> Seq<Join>
    decreases s.len(),
{
    if s.len() == 0 {
        Seq::empty()
    } else {
        match s.last() {
            Step::Assignment { id, value: Value::Phi(operands) } => phis_in(s.drop_last()).push(
                Join { id, operands },
            ),
            _ => phis_in(s.drop_last()),
        }
    }
}

/// The phis of the blocks, in order.
pub open spec fn phis_of(blocks: Seq<BlockView>) -> Seq<Join>
    decreases blocks.len(),
{
    if blocks.len() == 0 {
        Seq::empty()
    } else {
        phis_of(blocks.drop_last()) + phis_in(blocks.last().instructions)
    }
}

/// The place of the first `v` in `vars`, from `from` on.
pub open spec fn index_of(vars: Seq<VarId>, v: VarId, from: int) -> Option<int>
    decreases vars.len() - from,
{
    if from < 0 || from >= vars.len() {
        None
    } else if vars[from] == v {
        Some(from)
    } else {
        index_of(vars, v, from + 1)
    }
}

/// The nodes with every value of the node `from` moved to the node `to`.
pub open spec fn relabel(nodes: Seq<Option<usize>>, from: usize, to: usize) -> Seq<Option<usize>> {
    Seq::new(
        nodes.len(),
        |k: int|
            if nodes[k] == Some(from) {
                Some(to)
            } else {
                nodes[k]
            },
    )
}

/// The nodes with `v` in the node `target`, together with every value
/// that was in one node with `v`. A value that the program does not
/// assign has no node.
pub open spec fn unify(vars: Seq<VarId>, nodes: Seq<Option<usize>>, v: VarId, target: usize) -> Seq<Option<usize>> {
    match index_of(vars, v, 0) {
        None => nodes,
        Some(k) => match nodes[k] {
            None => nodes.update(k, Some(target)),
            Some(n) => relabel(nodes, n, target),
        },
    }
}

/// The nodes with each of `ops` from `from` on in the node `target`.
pub open spec fn unify_all(
    vars: Seq<VarId>,
    nodes: Seq<Option<usize>>,
    ops: Seq<VarId>,
    from: int,
    target: usize,
) -> Seq<Option<usize>>
    decreases ops.len() - from,
{
    if from < 0 || from >= ops.len() {
        nodes
    } else {
        unify_all(vars, unify(vars, nodes, ops[from], target), ops, from + 1, target)
    }
}

/// The nodes of the values, the number of the next node, and whether the
/// numbers for nodes have run out.
pub struct Numbering {
    pub nodes: Seq<Option<usize>>,
    pub next: usize,
    pub full: bool,
}

impl Numbering {
    /// The numbering with the next number taken.
    pub open spec fn step(self) -> Numbering {
        if self.next == usize::MAX {
            Numbering { full: true, ..self }
        } else {
            Numbering { next: (self.next + 1) as usize, ..self }
        }
    }

    /// The numbering after each phi from `from` on has got a new node for
    /// itself and its operands.
    pub open spec fn phis(self, vars: Seq<VarId>, list: Seq<Join>, from: int) -> Numbering
        decreases list.len() - from,
    {
        if from < 0 || from >= list.len() {
            self
        } else {
            let first = unify(vars, self.nodes, list[from].id, self.next);
            let all = unify_all(vars, first, list[from].operands, 0, self.next);
            (Numbering { nodes: all, ..self }).step().phis(vars, list, from + 1)
        }
    }

    /// The numbering after each value from `from` on that has no node has got one.
    pub open spec fn rest(self, from: int) -> Numbering
        decreases self.nodes.len() - from,
    {
        if from < 0 || from >= self.nodes.len() {
            self
        } else if self.nodes[from] is None {
            (Numbering { nodes: self.nodes.update(from, Some(self.next)), ..self }).step().rest(from + 1)
        } else {
            self.rest(from + 1)
        }
    }

    /// Every value has a node, and the nodes are below the next number.
    pub open spec fn complete(self) -> bool {
        forall|k: int| 0 <= k < self.nodes.len() ==> (#[trigger] self.nodes[k]) is Some && self.nodes[k]->Some_0
            < self.next
    }

    /// The nodes that are given are below the next number.
    pub open spec fn bounded(self) -> bool {
        forall|k: int|
            0 <= k < self.nodes.len() && (#[trigger] self.nodes[k]) is Some ==> self.nodes[k]->Some_0 < self.next
    }
}

impl ProgramView {
    /// The nodes of the values of the program, in the order in which the
    /// values are assigned: first every phi gets a node for itself and its
    /// operands, then every other value a node of its own.
    pub open spec fn numbering(self) -> Numbering {
        let vars = assigned_ids(self.blocks);
        (Numbering { nodes: Seq::new(vars.len(), |k: int| None), next: 0, full: false }).phis(
            vars,
            phis_of(self.blocks),
            0,
        ).rest(0)
    }
}

/// What `index_of` finds is a place of the value.
pub proof fn lemma_index_of(vars: Seq<VarId>, v: VarId, from: int)
    requires
        0 <= from,
    ensures
        match index_of(vars, v, from) {
            Some(k) => from <= k < vars.len() && vars[k] == v,
            None => forall|j: int| from <= j < vars.len() ==> vars[j] != v,
        },
    decreases vars.len() - from,
{
    if from < vars.len() && vars[from] != v {
        lemma_index_of(vars, v, from + 1);
    }
}

/// The values that the program assigns, in order.
fn collect_vars(program: &Program) -> (ids: Vec<VarId>)
    ensures
        ids@ == assigned_ids(program@.blocks),
{
    let mut ids: Vec<VarId> = Vec::new();
    let mut b: usize = 0;
    assert(program@.blocks.take(0) =~= Seq::<BlockView>::empty());
    while b < program.blocks.len()
        invariant
            b <= program.blocks.len(),
            ids@ == assigned_ids(program@.blocks.take(b as int)),
        decreases program.blocks.len() - b,
    {
        let block: &Block = &program.blocks[b];
        let ghost before = ids@;
        let mut i: usize = 0;
        assert(block@.instructions.take(0) =~= Seq::<Step>::empty());
        assert(before + Seq::<VarId>::empty() =~= before);
        while i < block.instructions.len()
            invariant
                b < program.blocks.len(),
                block == program.blocks@[b as int],
                i <= block.instructions.len(),
                ids@ == before + crate::ir::inline::assigned_in(block@.instructions.take(i as int)),
            decreases block.instructions.len() - i,
        {
            proof {
                assert(block@.instructions.take(i as int + 1).drop_last() =~= block@.instructions.take(i as int));
                assert(block@.instructions.take(i as int + 1).last() == block.instructions@[i as int]@);
            }
            if let Instruction::Assignment { id, value } = &block.instructions[i] {
                ids.push(*id);
                proof {
                    assert(ids@ =~= before + crate::ir::inline::assigned_in(
                        block@.instructions.take(i as int),
                    ).push(*id));
                }
            }
            i = i + 1;
        }
        b = b + 1;
        proof {
            assert(block@.instructions.take(block@.instructions.len() as int) =~= block@.instructions);
            assert(program@.blocks.take(b as int).drop_last() =~= program@.blocks.take(b - 1));
            assert(program@.blocks.take(b as int).last() == block@);
        }
    }
    assert(program@.blocks.take(program@.blocks.len() as int) =~= program@.blocks);
    ids
}

/// The phis of the program, in order.
fn collect_phis(program: &Program) -> (phis: Vec<Phi>)
    ensures
        joins(phis@) == phis_of(program@.blocks),
{
    let mut phis: Vec<Phi> = Vec::new();
    let mut b: usize = 0;
    assert(program@.blocks.take(0) =~= Seq::<BlockView>::empty());
    assert(joins(phis@) =~= Seq::<Join>::empty());
    while b < program.blocks.len()
        invariant
            b <= program.blocks.len(),
            joins(phis@) == phis_of(program@.blocks.take(b as int)),
        decreases program.blocks.len() - b,
    {
        let block: &Block = &program.blocks[b];
        let ghost before = joins(phis@);
        let mut i: usize = 0;
        assert(block@.instructions.take(0) =~= Seq::<Step>::empty());
        assert(before + Seq::<Join>::empty() =~= before);
        while i < block.instructions.len()
            invariant
                b < program.blocks.len(),
                block == program.blocks@[b as int],
                i <= block.instructions.len(),
                joins(phis@) == before + phis_in(block@.instructions.take(i as int)),
            decreases block.instructions.len() - i,
        {
            proof {
                assert(block@.instructions.take(i as int + 1).drop_last() =~= block@.instructions.take(i as int));
                assert(block@.instructions.take(i as int + 1).last() == block.instructions@[i as int]@);
            }
            if let Instruction::Assignment { id, value } = &block.instructions[i] {
                if let VarValue::Phi(operands) = value {
                    let ghost sofar = joins(phis@);
                    phis.push(Phi { id: *id, operands: crate::ir::types::copy_vars(operands) });
                    proof {
                        assert(joins(phis@) =~= sofar.push(Join { id: *id, operands: operands@ }));
                        assert(joins(phis@) =~= before + phis_in(block@.instructions.take(i as int)).push(
                            Join { id: *id, operands: operands@ },
                        ));
                    }
                }
            }
            i = i + 1;
        }
        b = b + 1;
        proof {
            assert(block@.instructions.take(block@.instructions.len() as int) =~= block@.instructions);
            assert(program@.blocks.take(b as int).drop_last() =~= program@.blocks.take(b - 1));
            assert(program@.blocks.take(b as int).last() == block@);
        }
    }
    assert(program@.blocks.take(program@.blocks.len() as int) =~= program@.blocks);
    phis
}

/// The place of a value in a list.
fn position_of(vars: &Vec<VarId>, v: VarId) -> (r: Option<usize>)
    ensures
        match r {
            Some(k) => index_of(vars@, v, 0) == Some(k as int) && k < vars@.len(),
            None => index_of(vars@, v, 0) is None,
        },
{
    let mut i: usize = 0;
    while i < vars.len()
        invariant
            i <= vars.len(),
            index_of(vars@, v, i as int) == index_of(vars@, v, 0),
        decreases vars.len() - i,
    {
        if vars[i].0 == v.0 {
            return Some(i);
        }
        i = i + 1;
    }
    None
}

/// Puts a value into a node, together with every value of its node.
fn unify_var(vars: &Vec<VarId>, nodes: &mut Vec<Option<usize>>, v: VarId, target: usize)
    requires
        old(nodes)@.len() == vars@.len(),
    ensures
        final(nodes)@ == unify(vars@, old(nodes)@, v, target),
        final(nodes)@.len() == vars@.len(),
{
    let k: usize = match position_of(vars, v) {
        Some(k) => k,
        None => {
            return ;
        },
    };
    match nodes[k] {
        None => {
            nodes.set(k, Some(target));
        },
        Some(n) => {
            let mut i: usize = 0;
            while i < nodes.len()
                invariant
                    i <= nodes.len(),
                    nodes@.len() == old(nodes)@.len(),
                    forall|j: int| 0 <= j < i ==> nodes@[j] == relabel(old(nodes)@, n, target)[j],
                    forall|j: int| i <= j < nodes@.len() ==> nodes@[j] == old(nodes)@[j],
                decreases nodes.len() - i,
            {
                if let Some(m) = nodes[i] {
                    if m == n {
                        nodes.set(i, Some(target));
                    }
                }
                i = i + 1;
            }
            assert(nodes@ =~= relabel(old(nodes)@, n, target));
        },
    }
}

/// Gives every value of the program its node.
fn number_nodes(vars: &Vec<VarId>, phis: &Vec<Phi>) -> (r: (Vec<Option<usize>>, usize, bool))
    ensures
        (Numbering { nodes: r.0@, next: r.1, full: r.2 }) == (Numbering {
            nodes: Seq::new(vars@.len(), |k: int| None),
            next: 0,
            full: false,
        }).phis(vars@, joins(phis@), 0).rest(0),
        r.0@.len() == vars@.len(),
        !r.2 ==> (Numbering { nodes: r.0@, next: r.1, full: r.2 }).complete(),
{
    let mut nodes: Vec<Option<usize>> = Vec::new();
    let mut i: usize = 0;
    while i < vars.len()
        invariant
            i <= vars.len(),
            nodes@ == Seq::new(i as nat, |k: int| None::<usize>),
        decreases vars.len() - i,
    {
        nodes.push(None);
        i = i + 1;
        assert(nodes@ =~= Seq::new(i as nat, |k: int| None::<usize>));
    }
    let mut next: usize = 0;
    let mut full: bool = false;
    let ghost start = Numbering { nodes: nodes@, next: 0, full: false };
    let mut j: usize = 0;
    while j < phis.len()
        invariant
            j <= phis.len(),
            nodes@.len() == vars@.len(),
            start.phis(vars@, joins(phis@), 0) == (Numbering { nodes: nodes@, next, full }).phis(
                vars@,
                joins(phis@),
                j as int,
            ),
            full || (Numbering { nodes: nodes@, next, full }).bounded(),
        decreases phis.len() - j,
    {
        let ghost before = nodes@;
        unify_var(vars, &mut nodes, phis[j].id, next);
        let ghost first = nodes@;
        proof {
            if !full {
                assert forall|x: int| 0 <= x < before.len() && (#[trigger] before[x]) is Some implies before[x]->Some_0
                    <= next by {
                    assert(before[x]->Some_0 < next);
                }
                lemma_unify_bound(vars@, before, phis@[j as int].id, next);
            }
        }
        let operands: &Vec<VarId> = &phis[j].operands;
        let mut k: usize = 0;
        while k < operands.len()
            invariant
                k <= operands.len(),
                nodes@.len() == vars@.len(),
                unify_all(vars@, first, operands@, 0, next) == unify_all(vars@, nodes@, operands@, k as int, next),
                full || forall|x: int| 0 <= x < nodes@.len() && (#[trigger] nodes@[x]) is Some ==> nodes@[x]->Some_0 <= next,
                full || forall|x: int| 0 <= x < first.len() && (#[trigger] first[x]) is Some ==> first[x]->Some_0 <= next,
            decreases operands.len() - k,
        {
            let ghost prior = nodes@;
            unify_var(vars, &mut nodes, operands[k], next);
            proof {
                if !full {
                    lemma_unify_bound(vars@, prior, operands@[k as int], next);
                }
            }
            k = k + 1;
        }
        proof {
            assert(joins(phis@)[j as int] == phis@[j as int]@);
        }
        if next == usize::MAX {
            full = true;
        } else {
            next = next + 1;
        }
        j = j + 1;
    }
    let mut k: usize = 0;
    let ghost middle = Numbering { nodes: nodes@, next, full };
    while k < nodes.len()
        invariant
            k <= nodes.len(),
            nodes@.len() == vars@.len(),
            middle.rest(0) == (Numbering { nodes: nodes@, next, full }).rest(k as int),
            full || (Numbering { nodes: nodes@, next, full }).bounded(),
            full || forall|x: int| 0 <= x < k ==> (#[trigger] nodes@[x]) is Some,
        decreases nodes.len() - k,
    {
        if nodes[k].is_none() {
            nodes.set(k, Some(next));
            if next == usize::MAX {
                full = true;
            } else {
                next = next + 1;
            }
        }
        k = k + 1;
    }
    (nodes, next, full)
}

/// Putting a value into a node leaves every node at or below that node's
/// number, if every node was.
pub proof fn lemma_unify_bound(vars: Seq<VarId>, nodes: Seq<Option<usize>>, v: VarId, target: usize)
    requires
        nodes.len() == vars.len(),
        forall|x: int| 0 <= x < nodes.len() && (#[trigger] nodes[x]) is Some ==> nodes[x]->Some_0 <= target,
    ensures
        forall|x: int|
            0 <= x < nodes.len() && (#[trigger] unify(vars, nodes, v, target)[x]) is Some ==> unify(
                vars,
                nodes,
                v,
                target,
            )[x]->Some_0 <= target,
        unify(vars, nodes, v, target).len() == nodes.len(),
{
    lemma_index_of(vars, v, 0);
    let after = unify(vars, nodes, v, target);
    assert forall|x: int| 0 <= x < nodes.len() && (#[trigger] after[x]) is Some implies after[x]->Some_0
        <= target by {
        if nodes[x] is Some {
            assert(nodes[x]->Some_0 <= target);
        }
    }
}

/// The values that the operands of a list read, in order.
pub open spec fn operand_vars(list: Seq<Operand>) -> Seq<VarId>
    decreases list.len(),
{
    if list.len() == 0 {
        Seq::empty()
    } else {
        operand_vars(list.drop_last()) + list.last().reads()
    }
}

impl Operand {
    /// The value that the operand reads, as a list.
    pub open spec fn reads(self) -> Seq<VarId> {
        match self {
            Operand::Var(v) => seq![v],
            _ => Seq::empty(),
        }
    }
}

impl Value {
    /// The values that computing this reads, in order.
    pub open spec fn reads(self) -> Seq<VarId> {
        match self {
            Value::Single(x) => x.reads(),
            Value::Phi(args) => args,
            Value::BinaryOp { lhs, op, rhs } => lhs.reads() + rhs.reads(),
            Value::Call { name, args } => operand_vars(args),
        }
    }
}

impl Step {
    /// The values that the instruction touches: those it reads, then the
    /// one it assigns.
    pub open spec fn touched(self) -> Seq<VarId> {
        match self {
            Step::Assignment { id, value } => value.reads().push(id),
            Step::Branch { cond, true_block, false_block } => cond.reads(),
            Step::Yield => Seq::empty(),
            Step::Return(x) => x.reads(),
        }
    }
}

/// The nodes of the values of a program: `nodes[k]` is the node of `vars[k]`.
pub struct Table {
    pub vars: Seq<VarId>,
    pub nodes: Seq<Option<usize>>,
}

impl Table {
    /// The node of a value, if it has one.
    pub open spec fn node(self, v: VarId) -> Option<usize> {
        match index_of(self.vars, v, 0) {
            Some(k) => self.nodes[k],
            None => None,
        }
    }

    /// Every value has its entry, and every node is below `n`.
    pub open spec fn fits(self, n: nat) -> bool {
        &&& self.nodes.len() == self.vars.len()
        &&& forall|k: int| 0 <= k < self.nodes.len() && (#[trigger] self.nodes[k]) is Some ==> self.nodes[k]->Some_0 < n
    }
}

impl Edges {
    /// The graph with an edge between `node` and the node of each value of
    /// `list` from `from` on that has one.
    pub open spec fn linked(self, table: Table, node: usize, list: Seq<VarId>, from: int) -> Edges
        decreases list.len() - from,
    {
        if from < 0 || from >= list.len() {
            self
        } else {
            match table.node(list[from]) {
                Some(other) => self.with_edge(node, other).linked(table, node, list, from + 1),
                None => self.linked(table, node, list, from + 1),
            }
        }
    }
}

/// A walk through the program for one value: the graph so far, and the
/// blocks that the walk has entered.
pub struct Walk {
    pub graph: Edges,
    pub visited: Seq<bool>,
}

impl Walk {
    /// Walks from the instruction `i` of the block `b` to the end of the
    /// block and on into the blocks after it that have not been entered.
    /// Gives whether `var` is touched from there on. On the way back, at
    /// each instruction after which `var` is still touched, `var` gets an
    /// edge to every value that the instruction touches.
    pub open spec fn along(self, p: ProgramView, table: Table, b: int, i: int, var: VarId) -> (Walk, bool)
        decreases count_false(self.visited), 1nat, p.blocks[b].instructions.len() - i,
    {
        if b < 0 || b >= p.blocks.len() || i < 0 {
            (self, false)
        } else if i >= p.blocks[b].instructions.len() {
            self.across(p, table, p.blocks[b].next, 0, var)
        } else {
            let (w, used_later) = self.along(p, table, b, i + 1, var);
            let touched = p.blocks[b].instructions[i].touched();
            let used = used_later || touched.contains(var);
            if used_later {
                match table.node(var) {
                    Some(node) => (Walk { graph: w.graph.linked(table, node, touched, 0), ..w }, used),
                    None => (w, used),
                }
            } else {
                (w, used)
            }
        }
    }

    /// Walks into each of the blocks of `next` from `from` on that has not
    /// been entered, in order.
    pub open spec fn across(self, p: ProgramView, table: Table, next: Seq<BlockId>, from: int, var: VarId) -> (
        Walk,
        bool,
    )
        decreases count_false(self.visited), 0nat, next.len() - from,
    {
        if from < 0 || from >= next.len() {
            (self, false)
        } else {
            let n = next[from].0 as int;
            if n >= self.visited.len() || self.visited[n] {
                self.across(p, table, next, from + 1, var)
            } else {
                let entered = Walk { visited: self.visited.update(n, true), ..self };
                // a block that is entered is one block fewer to enter: this is why the walk ends
                if count_false(entered.visited) < count_false(self.visited) {
                    let (w1, used1) = entered.along(p, table, n, 0, var);
                    // walking leaves no more blocks to enter, so the walk ends
                    if count_false(w1.visited) <= count_false(self.visited) {
                        let (w2, used2) = w1.across(p, table, next, from + 1, var);
                        (w2, used1 || used2)
                    } else {
                        (w1, used1)
                    }
                } else {
                    (entered, false)
                }
            }
        }
    }
}

impl Edges {
    /// The graph with the node of `var` and its edges: the walk starts
    /// after the instruction that assigns `var`, with only the block of
    /// that instruction entered.
    pub open spec fn with_var(self, p: ProgramView, table: Table, var: VarId) -> Edges {
        if !p.defined(var) {
            self
        } else {
            let (b, i) = p.position(var);
            let start = match table.node(var) {
                Some(node) => self.with_node(node),
                None => self,
            };
            let walk = Walk { graph: start, visited: Seq::new(p.blocks.len(), |k: int| k == b) };
            walk.along(p, table, b, i + 1, var).0.graph
        }
    }

    /// The graph with the nodes and edges of each of `vars` from `from` on.
    pub open spec fn with_vars(self, p: ProgramView, table: Table, vars: Seq<VarId>, from: int) -> Edges
        decreases vars.len() - from,
    {
        if from < 0 || from >= vars.len() {
            self
        } else {
            self.with_var(p, table, vars[from]).with_vars(p, table, vars, from + 1)
        }
    }

    /// Whether `other` has every node of this graph, and is as large.
    pub open spec fn within(self, other: Edges) -> bool {
        &&& self.size() == other.size()
        &&& forall|a: usize| #[trigger] self.has_node(a) ==> other.has_node(a)
    }
}

/// The nodes of the values of a program.
pub struct NodeTable {
    pub vars: Vec<VarId>,
    pub nodes: Vec<Option<usize>>,
}

impl View for NodeTable {
    type V = Table;

    open spec fn view(&self) -> Table {
        Table { vars: self.vars@, nodes: self.nodes@ }
    }
}

impl NodeTable {
    /// The node of a value, if it has one.
    pub fn node_of(&self, v: VarId) -> (r: Option<usize>)
        requires
            self@.nodes.len() == self@.vars.len(),
        ensures
            r == self@.node(v),
    {
        match position_of(&self.vars, v) {
            Some(k) => self.nodes[k],
            None => None,
        }
    }
}

/// The values that an operand reads.
fn operand_reads(list: &mut Vec<VarId>, x: &VarOrConst)
    ensures
        final(list)@ == old(list)@ + x@.reads(),
{
    if let VarOrConst::Var(v) = x {
        list.push(*v);
        assert(list@ =~= old(list)@ + x@.reads());
    } else {
        assert(list@ =~= old(list)@ + x@.reads());
    }
}

/// The values that an instruction touches.
fn touched_vars(ins: &Instruction) -> (list: Vec<VarId>)
    ensures
        list@ == ins@.touched(),
{
    let mut list: Vec<VarId> = Vec::new();
    match ins {
        Instruction::Assignment { id, value } => {
            match value {
                VarValue::Single(x) => {
                    operand_reads(&mut list, x);
                    assert(list@ =~= value@.reads());
                },
                VarValue::Phi(args) => {
                    list = crate::ir::types::copy_vars(args);
                },
                VarValue::BinaryOp { lhs, op, rhs } => {
                    operand_reads(&mut list, lhs);
                    operand_reads(&mut list, rhs);
                    assert(list@ =~= value@.reads());
                },
                VarValue::Call { name, args } => {
                    let mut k: usize = 0;
                    assert(operands(args@).take(0) =~= Seq::<Operand>::empty());
                    while k < args.len()
                        invariant
                            k <= args.len(),
                            list@ == operand_vars(operands(args@).take(k as int)),
                        decreases args.len() - k,
                    {
                        proof {
                            assert(operands(args@).take(k as int + 1).drop_last() =~= operands(args@).take(
                                k as int,
                            ));
                            assert(operands(args@).take(k as int + 1).last() == args@[k as int]@);
                        }
                        operand_reads(&mut list, &args[k]);
                        k = k + 1;
                    }
                    assert(operands(args@).take(args@.len() as int) =~= operands(args@));
                },
            }
            list.push(*id);
        },
        Instruction::Branch { cond, true_block, false_block } => {
            operand_reads(&mut list, cond);
            assert(list@ =~= ins@.touched());
        },
        Instruction::Yield => {},
        Instruction::Return(x) => {
            operand_reads(&mut list, x);
            assert(list@ =~= ins@.touched());
        },
    }
    list
}

/// Whether a list holds a value.
fn holds_var(list: &Vec<VarId>, v: VarId) -> (r: bool)
    ensures
        r == list@.contains(v),
{
    let mut i: usize = 0;
    while i < list.len()
        invariant
            i <= list.len(),
            forall|k: int| 0 <= k < i ==> list@[k] != v,
        decreases list.len() - i,
    {
        if list[i].0 == v.0 {
            return true;
        }
        i = i + 1;
    }
    false
}

/// Adds an edge between `node` and the node of each value of a list.
fn link_all(graph: &mut Graph, var_to_node: &NodeTable, node: usize, list: &Vec<VarId>)
    requires
        old(graph)@.well_formed(),
        var_to_node@.fits(old(graph)@.size()),
        node < old(graph)@.size(),
    ensures
        final(graph)@ == old(graph)@.linked(var_to_node@, node, list@, 0),
        final(graph)@.well_formed(),
        old(graph)@.within(final(graph)@),
{
    let mut k: usize = 0;
    while k < list.len()
        invariant
            k <= list.len(),
            graph@.well_formed(),
            var_to_node@.fits(graph@.size()),
            node < graph@.size(),
            old(graph)@.within(graph@),
            old(graph)@.linked(var_to_node@, node, list@, 0) == graph@.linked(var_to_node@, node, list@, k as int),
        decreases list.len() - k,
    {
        let ghost before = graph@;
        if let Some(other) = var_to_node.node_of(list[k]) {
            proof {
                lemma_index_of(var_to_node@.vars, list@[k as int], 0);
                lemma_with_edge(graph@, node, other);
            }
            graph.add_edge(node, other);
        }
        k = k + 1;
    }
}

/// Walks on from a place of the program for `var_id`, and adds the edges
/// of `var_id` that the walk finds. Returns whether `var_id` is touched
/// from that place on.
pub fn add_edges_rec(
    graph: &mut Graph,
    program: &Program,
    pos: (BlockId, usize),
    var_id: VarId,
    visited: &mut Vec<bool>,
    var_to_node: &NodeTable,
) -> (used: bool)
    requires
        old(graph)@.well_formed(),
        var_to_node@.fits(old(graph)@.size()),
        program@.blocks_in_range(),
        pos.0.0 < program@.blocks.len(),
        old(visited)@.len() == program@.blocks.len(),
    ensures
        ((Walk { graph: final(graph)@, visited: final(visited)@ }), used) == (Walk {
            graph: old(graph)@,
            visited: old(visited)@,
        }).along(program@, var_to_node@, pos.0.0 as int, pos.1 as int, var_id),
        final(graph)@.well_formed(),
        old(graph)@.within(final(graph)@),
        final(visited)@.len() == old(visited)@.len(),
        count_false(final(visited)@) <= count_false(old(visited)@),
    decreases count_false(old(visited)@), 1nat, program@.blocks[pos.0.0 as int].instructions.len() - pos.1,
{
    let block: &Block = &program.blocks[pos.0.0];
    if pos.1 >= block.instructions.len() {
        return visit_next(graph, program, pos.0, var_id, visited, var_to_node);
    }
    let used_later: bool = add_edges_rec(graph, program, (pos.0, pos.1 + 1), var_id, visited, var_to_node);
    let touched: Vec<VarId> = touched_vars(&block.instructions[pos.1]);
    let used: bool = used_later || holds_var(&touched, var_id);
    if used_later {
        if let Some(node) = var_to_node.node_of(var_id) {
            proof {
                lemma_index_of(var_to_node@.vars, var_id, 0);
            }
            let ghost before = graph@;
            link_all(graph, var_to_node, node, &touched);
            proof {
                lemma_within_trans(old(graph)@, before, graph@);
            }
        }
    }
    used
}

/// Walks into the blocks after `block` that have not been entered.
fn visit_next(
    graph: &mut Graph,
    program: &Program,
    block: BlockId,
    var_id: VarId,
    visited: &mut Vec<bool>,
    var_to_node: &NodeTable,
) -> (used: bool)
    requires
        old(graph)@.well_formed(),
        var_to_node@.fits(old(graph)@.size()),
        program@.blocks_in_range(),
        block.0 < program@.blocks.len(),
        old(visited)@.len() == program@.blocks.len(),
    ensures
        ((Walk { graph: final(graph)@, visited: final(visited)@ }), used) == (Walk {
            graph: old(graph)@,
            visited: old(visited)@,
        }).across(program@, var_to_node@, program@.blocks[block.0 as int].next, 0, var_id),
        final(graph)@.well_formed(),
        old(graph)@.within(final(graph)@),
        final(visited)@.len() == old(visited)@.len(),
        count_false(final(visited)@) <= count_false(old(visited)@),
    decreases count_false(old(visited)@), 0nat, 0nat,
{
    let next: &Vec<BlockId> = &program.blocks[block.0].next;
    let ghost start = Walk { graph: graph@, visited: visited@ };
    let mut used: bool = false;
    let mut k: usize = 0;
    while k < next.len()
        invariant
            k <= next.len(),
            next@ == program@.blocks[block.0 as int].next,
            graph@.well_formed(),
            var_to_node@.fits(graph@.size()),
            program@.blocks_in_range(),
            block.0 < program@.blocks.len(),
            visited@.len() == program@.blocks.len(),
            start == (Walk { graph: old(graph)@, visited: old(visited)@ }),
            old(graph)@.within(graph@),
            count_false(visited@) <= count_false(old(visited)@),
            start.across(program@, var_to_node@, next@, 0, var_id) == ({
                let (w, rest) = (Walk { graph: graph@, visited: visited@ }).across(
                    program@,
                    var_to_node@,
                    next@,
                    k as int,
                    var_id,
                );
                (w, used || rest)
            }),
        decreases next.len() - k,
    {
        let n: BlockId = next[k];
        assert(n.0 < program@.blocks.len()) by {
            assert(program@.blocks[block.0 as int].next[k as int].0 < program@.blocks.len());
        }
        if !visited[n.0] {
            proof {
                lemma_count_false_update(visited@, n.0 as int);
            }
            visited.set(n.0, true);
            let ghost before = graph@;
            let found: bool = add_edges_rec(graph, program, (n, 0), var_id, visited, var_to_node);
            proof {
                lemma_within_trans(old(graph)@, before, graph@);
            }
            used = used || found;
        }
        k = k + 1;
    }
    used
}

/// A chain of graphs that each have the nodes of the one before.
pub proof fn lemma_within_trans(a: Edges, b: Edges, c: Edges)
    requires
        a.within(b),
        b.within(c),
    ensures
        a.within(c),
{
    assert forall|x: usize| #[trigger] a.has_node(x) implies c.has_node(x) by {
        assert(b.has_node(x));
    }
}

/// Adds the node of `var_id` and the edges that the walk from its
/// assignment finds.
pub fn add_edges(graph: &mut Graph, program: &Program, var_id: VarId, var_to_node: &NodeTable)
    requires
        old(graph)@.well_formed(),
        var_to_node@.fits(old(graph)@.size()),
        program@.single_assignment(),
        program@.blocks_in_range(),
    ensures
        final(graph)@ == old(graph)@.with_var(program@, var_to_node@, var_id),
        final(graph)@.well_formed(),
        old(graph)@.within(final(graph)@),
        program@.defined(var_id) ==> (var_to_node@.node(var_id) matches Some(node) ==> final(graph)@.has_node(node)),
{
    let start: (BlockId, usize) = match find_var(program, var_id) {
        Some(x) => x,
        None => {
            return ;
        },
    };
    proof {
        let (b, i) = program@.position(var_id);
        assert(program@.assigns(b, i, var_id));
    }
    let mut visited: Vec<bool> = Vec::new();
    let mut k: usize = 0;
    while k < program.blocks.len()
        invariant
            k <= program.blocks.len(),
            visited@ == Seq::new(k as nat, |j: int| j == start.0.0),
        decreases program.blocks.len() - k,
    {
        visited.push(k == start.0.0);
        k = k + 1;
        assert(visited@ =~= Seq::new(k as nat, |j: int| j == start.0.0));
    }
    if let Some(node) = var_to_node.node_of(var_id) {
        proof {
            lemma_index_of(var_to_node@.vars, var_id, 0);
        }
        graph.add_node(node);
        assert(graph@.has_node(node));
    }
    let ghost middle = graph@;
    assert(old(graph)@.within(middle));
    let count: usize = program.blocks[start.0.0].instructions.len();
    assert(start.1 < count);
    add_edges_rec(graph, program, (start.0, start.1 + 1), var_id, &mut visited, var_to_node);
    proof {
        lemma_within_trans(old(graph)@, middle, graph@);
        if let Some(node) = var_to_node@.node(var_id) {
            assert(middle.has_node(node));
        }
    }
}

/// The registers of the values of a program: `registers[k]` is the
/// register of `vars[k]`.
pub struct Registers {
    pub vars: Seq<VarId>,
    pub registers: Seq<Register>,
}

impl Registers {
    /// The register of a value, if the program assigns the value.
    pub open spec fn get(self, v: VarId) -> Option<Register> {
        match index_of(self.vars, v, 0) {
            Some(k) => Some(self.registers[k]),
            None => None,
        }
    }
}

/// The general register with the number of a colour.
pub open spec fn register_of(color: usize) -> Register {
    match Register::general(color as int) {
        Some(r) => r,
        None => Register::R0,
    }
}

impl ProgramView {
    /// Whether the nodes of two values have an edge in the interference graph.
    pub open spec fn interferes(self, u: VarId, v: VarId) -> bool {
        match (self.table().node(u), self.table().node(v)) {
            (Some(a), Some(b)) => self.interference().has_edge(a, b),
            _ => false,
        }
    }

    /// The nodes of the values of the program.
    pub open spec fn table(self) -> Table {
        Table { vars: assigned_ids(self.blocks), nodes: self.numbering().nodes }
    }

    /// The interference graph of the program: the nodes and edges of its
    /// values, added in the order in which the values are assigned.
    pub open spec fn interference(self) -> Edges {
        Edges::empty(self.numbering().next as nat).with_vars(self, self.table(), assigned_ids(self.blocks), 0)
    }

    /// The registers of the values of the program: each value gets the
    /// register with the number of the colour of its node. It is an error
    /// if the graph cannot be coloured with 16 colours by taking out nodes
    /// with fewer than 16 edges, or if the numbers for nodes run out.
    pub open spec fn allocation(self) -> Result<Registers, Error> {
        let numbering = self.numbering();
        if numbering.full {
            Err(Error::TooLarge)
        } else if !self.interference().simplifies() {
            Err(Error::RegisterPressure)
        } else {
            let colors = self.interference().coloring(Seq::new(numbering.next as nat, |i: int| 0usize));
            Ok(
                Registers {
                    vars: assigned_ids(self.blocks),
                    registers: Seq::new(
                        numbering.nodes.len(),
                        |k: int| register_of(colors[numbering.nodes[k]->Some_0 as int]),
                    ),
                },
            )
        }
    }
}

/// Every value that the steps assign in order is assigned by one of them.
pub proof fn lemma_assigned_in(s: Seq<Step>, k: int) -> (i: int)
    requires
        0 <= k < crate::ir::inline::assigned_in(s).len(),
    ensures
        0 <= i < s.len(),
        s[i].defines() == Some(crate::ir::inline::assigned_in(s)[k]),
    decreases s.len(),
{
    let head = s.drop_last();
    if k < crate::ir::inline::assigned_in(head).len() {
        lemma_assigned_in(head, k)
    } else {
        s.len() - 1
    }
}

/// Every value that the blocks assign in order is assigned by an instruction.
pub proof fn lemma_assigned_ids(blocks: Seq<BlockView>, k: int) -> (place: (int, int))
    requires
        0 <= k < assigned_ids(blocks).len(),
    ensures
        0 <= place.0 < blocks.len(),
        0 <= place.1 < blocks[place.0].instructions.len(),
        blocks[place.0].instructions[place.1].defines() == Some(assigned_ids(blocks)[k]),
    decreases blocks.len(),
{
    let head = blocks.drop_last();
    if k < assigned_ids(head).len() {
        lemma_assigned_ids(head, k)
    } else {
        let i = lemma_assigned_in(blocks.last().instructions, k - assigned_ids(head).len());
        (blocks.len() - 1, i)
    }
}

/// Which register each value of a program has.
pub struct RegisterAllocation {
    vars: Vec<VarId>,
    registers: Vec<Register>,
}

impl View for RegisterAllocation {
    type V = Registers;

    closed spec fn view(&self) -> Registers {
        Registers { vars: self.vars@, registers: self.registers@ }
    }
}

impl RegisterAllocation {
    /// Gives every value of the program a register, so that two values
    /// whose nodes have an edge never share one. The interference graph
    /// that is built on the way has with every edge the edge back, and no
    /// edge from a node to itself.
    pub fn allocate(ir_program: &Program) -> (r: Result<RegisterAllocation, Error>)
        requires
            ir_program@.well_formed(),
        ensures
            match ir_program@.allocation() {
                Ok(registers) => r is Ok && r->Ok_0@ == registers && registers.registers.len()
                    == registers.vars.len(),
                Err(e) => r == Err::<RegisterAllocation, Error>(e),
            },
            !ir_program@.numbering().full ==> ir_program@.interference().well_formed(),
            ir_program@.allocation() matches Ok(registers) ==> forall|u: VarId, v: VarId| #[trigger]
                ir_program@.interferes(u, v) ==> registers.get(u) is Some && registers.get(v) is Some
                    && registers.get(u) != registers.get(v),
    {
        let vars: Vec<VarId> = collect_vars(ir_program);
        let phis: Vec<Phi> = collect_phis(ir_program);
        let (nodes, next, full) = number_nodes(&vars, &phis);
        if full {
            return Err(Error::TooLarge);
        }
        let var_to_node = NodeTable { vars, nodes };
        let ghost p = ir_program@;
        let ghost table = var_to_node@;
        let mut graph = Graph::new(next);
        let ghost empty = graph@;
        assert(table == p.table());
        assert(table.fits(next as nat));
        let n: usize = var_to_node.vars.len();
        let mut k: usize = 0;
        while k < n
            invariant
                k <= n,
                n == table.vars.len(),
                table == var_to_node@,
                table == p.table(),
                p == ir_program@,
                p.well_formed(),
                graph@.well_formed(),
                graph@.size() == next,
                table.fits(next as nat),
                !p.numbering().full,
                p.numbering().complete(),
                empty.with_vars(p, table, table.vars, 0) == graph@.with_vars(p, table, table.vars, k as int),
                forall|j: int| 0 <= j < k ==> graph@.has_node(#[trigger] table.nodes[j]->Some_0),
            decreases n - k,
        {
            let ghost before = graph@;
            proof {
                let place = lemma_assigned_ids(p.blocks, k as int);
                assert(p.assigns(place.0, place.1, table.vars[k as int]));
                lemma_index_of(table.vars, table.vars[k as int], 0);
            }
            add_edges(&mut graph, ir_program, var_to_node.vars[k], &var_to_node);
            proof {
                let v = table.vars[k as int];
                let first = index_of(table.vars, v, 0)->Some_0;
                assert(table.vars[first] == v);
                assert(graph@.has_node(table.nodes[first]->Some_0));
                assert(table.nodes[first] == table.nodes[k as int]) by {
                    lemma_same_var_same_node(p, first, k as int);
                }
                assert forall|j: int| 0 <= j < k + 1 implies graph@.has_node(#[trigger] table.nodes[j]->Some_0) by {
                    if j < k {
                        assert(before.has_node(table.nodes[j]->Some_0));
                    }
                }
            }
            k = k + 1;
        }
        let ghost whole = graph@;
        assert(whole == p.interference());
        let mut colors: Vec<usize> = Vec::new();
        let mut c: usize = 0;
        while c < next
            invariant
                c <= next,
                colors@ == Seq::new(c as nat, |i: int| 0usize),
            decreases next - c,
        {
            colors.push(0);
            c = c + 1;
            assert(colors@ =~= Seq::new(c as nat, |i: int| 0usize));
        }
        let ghost blank = colors@;
        if !color_graph(&mut graph, &mut colors) {
            return Err(Error::RegisterPressure);
        }
        proof {
            lemma_coloring_proper(whole, blank);
        }
        let mut registers: Vec<Register> = Vec::new();
        let mut k: usize = 0;
        while k < n
            invariant
                k <= n,
                n == table.vars.len(),
                n == var_to_node.nodes@.len(),
                table == var_to_node@,
                p.numbering().complete(),
                table.nodes == p.numbering().nodes,
                table.fits(next as nat),
                colors@ == whole.coloring(blank),
                colors@.len() == next,
                forall|j: int| 0 <= j < n ==> whole.has_node(#[trigger] table.nodes[j]->Some_0),
                forall|a: usize| whole.has_node(a) ==> (#[trigger] colors@[a as int]) < 16,
                registers@.len() == k,
                forall|j: int| 0 <= j < k ==> registers@[j] == register_of(colors@[table.nodes[j]->Some_0 as int]),
            decreases n - k,
        {
            let node: usize = match var_to_node.nodes[k] {
                Some(node) => node,
                None => 0,
            };
            assert(whole.has_node(table.nodes[k as int]->Some_0));
            let color: usize = colors[node];
            let register: Register = match Register::from_index(color as u8) {
                Some(r) => r,
                None => Register::R0,
            };
            registers.push(register);
            k = k + 1;
        }
        let allocation = RegisterAllocation { vars: var_to_node.vars, registers };
        proof {
            assert(allocation@.registers =~= p.allocation()->Ok_0.registers);
            let given = p.allocation()->Ok_0;
            assert forall|u: VarId, v: VarId| #[trigger] p.interferes(u, v) implies given.get(u) is Some
                && given.get(v) is Some && given.get(u) != given.get(v) by {
                let a = table.node(u)->Some_0;
                let b = table.node(v)->Some_0;
                assert(whole.has_edge(a, b));
                assert(whole.has_node(a) && whole.has_node(b));
                lemma_index_of(table.vars, u, 0);
                lemma_index_of(table.vars, v, 0);
                assert(colors@[a as int] < 16 && colors@[b as int] < 16);
                assert(colors@[a as int] != colors@[b as int]);
            }
        }
        Ok(allocation)
    }

    /// The register of a value, if the program assigns the value.
    pub fn get(&self, var_id: VarId) -> (r: Option<Register>)
        requires
            self@.registers.len() == self@.vars.len(),
        ensures
            r == self@.get(var_id),
    {
        match position_of(&self.vars, var_id) {
            Some(k) => Some(self.registers[k]),
            None => None,
        }
    }
}

/// A value that stands twice among the assigned values has one node:
/// in a well-formed program it stands there once.
pub proof fn lemma_same_var_same_node(p: ProgramView, first: int, k: int)
    requires
        p.well_formed(),
        0 <= first < assigned_ids(p.blocks).len(),
        0 <= k < assigned_ids(p.blocks).len(),
        assigned_ids(p.blocks)[first] == assigned_ids(p.blocks)[k],
    ensures
        first == k,
{
    lemma_assigned_distinct(p.blocks, p, first, k);
}

/// The values that the blocks of a well-formed program assign in order
/// are all different.
pub proof fn lemma_assigned_distinct(blocks: Seq<BlockView>, p: ProgramView, a: int, b: int)
    requires
        p.single_assignment(),
        blocks.len() <= p.blocks.len(),
        forall|c: int| 0 <= c < blocks.len() ==> blocks[c] == p.blocks[c],
        0 <= a < assigned_ids(blocks).len(),
        0 <= b < assigned_ids(blocks).len(),
        assigned_ids(blocks)[a] == assigned_ids(blocks)[b],
    ensures
        a == b,
    decreases blocks.len(),
{
    let head = blocks.drop_last();
    let last = blocks.len() - 1;
    let n = assigned_ids(head).len() as int;
    let v = assigned_ids(blocks)[a];
    if a < n && b < n {
        lemma_assigned_distinct(head, p, a, b);
    } else if a >= n && b >= n {
        lemma_assigned_in_distinct(blocks.last().instructions, p, last, a - n, b - n);
    } else {
        let low = if a < n {
            a
        } else {
            b
        };
        let high = if a < n {
            b
        } else {
            a
        };
        let place = lemma_assigned_ids(head, low);
        let i = lemma_assigned_in(blocks.last().instructions, high - n);
        assert(p.assigns(place.0, place.1, v));
        assert(p.assigns(last, i, v));
    }
}

/// The values that the steps of a block of a well-formed program assign
/// in order are all different.
pub proof fn lemma_assigned_in_distinct(s: Seq<Step>, p: ProgramView, block: int, a: int, b: int)
    requires
        p.single_assignment(),
        0 <= block < p.blocks.len(),
        s.len() <= p.blocks[block].instructions.len(),
        forall|i: int| 0 <= i < s.len() ==> s[i] == p.blocks[block].instructions[i],
        0 <= a < crate::ir::inline::assigned_in(s).len(),
        0 <= b < crate::ir::inline::assigned_in(s).len(),
        crate::ir::inline::assigned_in(s)[a] == crate::ir::inline::assigned_in(s)[b],
    ensures
        a == b,
    decreases s.len(),
{
    let head = s.drop_last();
    let n = crate::ir::inline::assigned_in(head).len() as int;
    let v = crate::ir::inline::assigned_in(s)[a];
    if a < n && b < n {
        lemma_assigned_in_distinct(head, p, block, a, b);
    } else if a >= n && b >= n {
    } else {
        let low = if a < n {
            a
        } else {
            b
        };
        let i = lemma_assigned_in(head, low);
        assert(p.assigns(block, i, v));
        assert(p.assigns(block, s.len() - 1, v));
    }
}

/// Whether a value is in the node `target`, if the program assigns it.
pub open spec fn placed(vars: Seq<VarId>, nodes: Seq<Option<usize>>, v: VarId, target: usize) -> bool {
    match index_of(vars, v, 0) {
        Some(k) => nodes[k] == Some(target),
        None => true,
    }
}

/// Whether the values at two places of a table are in one node.
pub open spec fn share(nodes: Seq<Option<usize>>, a: int, b: int) -> bool {
    nodes[a] is Some && nodes[a] == nodes[b]
}

/// Whether a phi and each of its operands that the program assigns are in one node.
pub open spec fn joined_phi(vars: Seq<VarId>, nodes: Seq<Option<usize>>, phi: Join) -> bool {
    match index_of(vars, phi.id, 0) {
        None => true,
        Some(k) => nodes[k] is Some && forall|m: int|
            0 <= m < phi.operands.len() ==> (#[trigger] index_of(vars, phi.operands[m], 0) is None || share(
                nodes,
                index_of(vars, phi.operands[m], 0)->Some_0,
                k,
            )),
    }
}

/// Putting a value into a node keeps together what was together, keeps in
/// the node what was in it, and takes no value out of its node.
pub proof fn lemma_unify(vars: Seq<VarId>, nodes: Seq<Option<usize>>, v: VarId, target: usize)
    requires
        nodes.len() == vars.len(),
    ensures
        unify(vars, nodes, v, target).len() == nodes.len(),
        placed(vars, unify(vars, nodes, v, target), v, target),
        forall|a: int, b: int|
            0 <= a < nodes.len() && 0 <= b < nodes.len() && #[trigger] share(nodes, a, b) ==> share(
                unify(vars, nodes, v, target),
                a,
                b,
            ),
        forall|a: int|
            0 <= a < nodes.len() && nodes[a] == Some(target) ==> (#[trigger] unify(vars, nodes, v, target)[a])
                == Some(target),
{
    lemma_index_of(vars, v, 0);
    let after = unify(vars, nodes, v, target);
    assert forall|a: int, b: int|
        0 <= a < nodes.len() && 0 <= b < nodes.len() && #[trigger] share(nodes, a, b) implies share(
        after,
        a,
        b,
    ) by {
        assert(after[a] is Some);
    }
}

/// Putting values into a node keeps together what was together, and puts
/// each of them that the program assigns into the node.
pub proof fn lemma_unify_all(vars: Seq<VarId>, nodes: Seq<Option<usize>>, ops: Seq<VarId>, from: int, target: usize)
    requires
        nodes.len() == vars.len(),
        0 <= from,
    ensures
        unify_all(vars, nodes, ops, from, target).len() == nodes.len(),
        forall|a: int, b: int|
            0 <= a < nodes.len() && 0 <= b < nodes.len() && #[trigger] share(nodes, a, b) ==> share(
                unify_all(vars, nodes, ops, from, target),
                a,
                b,
            ),
        forall|a: int|
            0 <= a < nodes.len() && nodes[a] == Some(target) ==> (#[trigger] unify_all(
                vars,
                nodes,
                ops,
                from,
                target,
            )[a]) == Some(target),
        forall|m: int|
            from <= m < ops.len() ==> placed(
                vars,
                unify_all(vars, nodes, ops, from, target),
                #[trigger] ops[m],
                target,
            ),
    decreases ops.len() - from,
{
    if from < ops.len() {
        let first = unify(vars, nodes, ops[from], target);
        lemma_unify(vars, nodes, ops[from], target);
        lemma_unify_all(vars, first, ops, from + 1, target);
        let all = unify_all(vars, first, ops, from + 1, target);
        lemma_index_of(vars, ops[from], 0);
        assert forall|a: int, b: int|
            0 <= a < nodes.len() && 0 <= b < nodes.len() && #[trigger] share(nodes, a, b) implies share(
            all,
            a,
            b,
        ) by {
            assert(share(first, a, b));
        }
        assert forall|a: int| 0 <= a < nodes.len() && nodes[a] == Some(target) implies (#[trigger] all[a])
            == Some(target) by {
            assert(first[a] == Some(target));
        }
        assert forall|m: int| from <= m < ops.len() implies placed(vars, all, #[trigger] ops[m], target) by {
            lemma_index_of(vars, ops[m], 0);
            if m == from {
                if let Some(k) = index_of(vars, ops[m], 0) {
                    assert(first[k] == Some(target));
                }
            } else {
                assert(placed(vars, all, ops[m], target));
            }
        }
    }
}

/// A phi that is together stays together when values are moved between nodes as one.
proof fn lemma_joined_kept(vars: Seq<VarId>, nodes: Seq<Option<usize>>, after: Seq<Option<usize>>, phi: Join)
    requires
        nodes.len() == vars.len(),
        after.len() == nodes.len(),
        joined_phi(vars, nodes, phi),
        forall|a: int, b: int|
            0 <= a < nodes.len() && 0 <= b < nodes.len() && #[trigger] share(nodes, a, b) ==> share(after, a, b),
    ensures
        joined_phi(vars, after, phi),
{
    lemma_index_of(vars, phi.id, 0);
    if let Some(k) = index_of(vars, phi.id, 0) {
        assert(share(nodes, k, k));
        assert(share(after, k, k));
        assert forall|m: int| 0 <= m < phi.operands.len() implies (#[trigger] index_of(vars, phi.operands[m], 0)
            is None || share(after, index_of(vars, phi.operands[m], 0)->Some_0, k)) by {
            lemma_index_of(vars, phi.operands[m], 0);
            if let Some(j) = index_of(vars, phi.operands[m], 0) {
                assert(share(nodes, j, k));
            }
        }
    }
}

/// After the phis have got their nodes, every phi is together with its operands.
pub proof fn lemma_number_phis(n: Numbering, vars: Seq<VarId>, list: Seq<Join>, from: int)
    requires
        n.nodes.len() == vars.len(),
        0 <= from <= list.len(),
        forall|j: int| 0 <= j < from ==> joined_phi(vars, n.nodes, #[trigger] list[j]),
    ensures
        n.phis(vars, list, from).nodes.len() == vars.len(),
        forall|j: int| 0 <= j < list.len() ==> joined_phi(vars, n.phis(vars, list, from).nodes, #[trigger] list[j]),
    decreases list.len() - from,
{
    if from < list.len() {
        let phi = list[from];
        let first = unify(vars, n.nodes, phi.id, n.next);
        lemma_unify(vars, n.nodes, phi.id, n.next);
        let all = unify_all(vars, first, phi.operands, 0, n.next);
        lemma_unify_all(vars, first, phi.operands, 0, n.next);
        let next = (Numbering { nodes: all, ..n }).step();
        assert forall|j: int| 0 <= j < from + 1 implies joined_phi(vars, next.nodes, #[trigger] list[j]) by {
            if j < from {
                lemma_joined_kept(vars, n.nodes, first, list[j]);
                lemma_joined_kept(vars, first, all, list[j]);
            } else {
                lemma_index_of(vars, phi.id, 0);
                if let Some(k) = index_of(vars, phi.id, 0) {
                    assert(first[k] == Some(n.next));
                    assert(all[k] == Some(n.next));
                    assert forall|m: int| 0 <= m < phi.operands.len() implies (#[trigger] index_of(
                        vars,
                        phi.operands[m],
                        0,
                    ) is None || share(all, index_of(vars, phi.operands[m], 0)->Some_0, k)) by {
                        lemma_index_of(vars, phi.operands[m], 0);
                        assert(placed(vars, all, phi.operands[m], n.next));
                    }
                }
            }
        }
        lemma_number_phis(next, vars, list, from + 1);
    }
}

/// Giving the other values their nodes keeps every phi together with its operands.
pub proof fn lemma_number_rest(n: Numbering, vars: Seq<VarId>, list: Seq<Join>, from: int)
    requires
        n.nodes.len() == vars.len(),
        0 <= from,
        forall|j: int| 0 <= j < list.len() ==> joined_phi(vars, n.nodes, #[trigger] list[j]),
    ensures
        n.rest(from).nodes.len() == vars.len(),
        forall|j: int| 0 <= j < list.len() ==> joined_phi(vars, n.rest(from).nodes, #[trigger] list[j]),
    decreases n.nodes.len() - from,
{
    if from < n.nodes.len() {
        if n.nodes[from] is None {
            let given = Numbering { nodes: n.nodes.update(from, Some(n.next)), ..n };
            assert forall|j: int| 0 <= j < list.len() implies joined_phi(vars, given.nodes, #[trigger] list[j]) by {
                lemma_joined_kept(vars, n.nodes, given.nodes, list[j]);
            }
            lemma_number_rest(given.step(), vars, list, from + 1);
        } else {
            lemma_number_rest(n, vars, list, from + 1);
        }
    }
}

/// Every phi among the steps is in the list of the phis of the steps.
pub proof fn lemma_phi_in(s: Seq<Step>, i: int) -> (j: int)
    requires
        0 <= i < s.len(),
        s[i] is Assignment,
        s[i]->Assignment_value is Phi,
    ensures
        0 <= j < phis_in(s).len(),
        phis_in(s)[j] == (Join { id: s[i]->Assignment_id, operands: s[i]->Assignment_value->Phi_0 }),
    decreases s.len(),
{
    if i == s.len() - 1 {
        phis_in(s).len() - 1
    } else {
        lemma_phi_in(s.drop_last(), i)
    }
}

/// Every phi of the blocks is in the list of the phis of the blocks.
pub proof fn lemma_phi_of(blocks: Seq<BlockView>, b: int, i: int) -> (j: int)
    requires
        0 <= b < blocks.len(),
        0 <= i < blocks[b].instructions.len(),
        blocks[b].instructions[i] is Assignment,
        blocks[b].instructions[i]->Assignment_value is Phi,
    ensures
        0 <= j < phis_of(blocks).len(),
        phis_of(blocks)[j] == (Join {
            id: blocks[b].instructions[i]->Assignment_id,
            operands: blocks[b].instructions[i]->Assignment_value->Phi_0,
        }),
    decreases blocks.len(),
{
    if b == blocks.len() - 1 {
        let j = lemma_phi_in(blocks.last().instructions, i);
        phis_of(blocks.drop_last()).len() + j
    } else {
        lemma_phi_of(blocks.drop_last(), b, i)
    }
}

/// Every value that the steps assign is in the list of the values that they assign.
pub proof fn lemma_assigned_index_in(s: Seq<Step>, i: int) -> (k: int)
    requires
        0 <= i < s.len(),
        s[i] is Assignment,
    ensures
        0 <= k < crate::ir::inline::assigned_in(s).len(),
        crate::ir::inline::assigned_in(s)[k] == s[i]->Assignment_id,
    decreases s.len(),
{
    if i == s.len() - 1 {
        crate::ir::inline::assigned_in(s).len() - 1
    } else {
        lemma_assigned_index_in(s.drop_last(), i)
    }
}

/// Every value that the blocks assign is in the list of the values that they assign.
pub proof fn lemma_assigned_index(blocks: Seq<BlockView>, b: int, i: int) -> (k: int)
    requires
        0 <= b < blocks.len(),
        0 <= i < blocks[b].instructions.len(),
        blocks[b].instructions[i] is Assignment,
    ensures
        0 <= k < assigned_ids(blocks).len(),
        assigned_ids(blocks)[k] == blocks[b].instructions[i]->Assignment_id,
    decreases blocks.len(),
{
    if b == blocks.len() - 1 {
        let k = lemma_assigned_index_in(blocks.last().instructions, i);
        assigned_ids(blocks.drop_last()).len() + k
    } else {
        lemma_assigned_index(blocks.drop_last(), b, i)
    }
}

/// A phi and each of its operands are one node of the interference graph:
/// in a well-formed program they have the same node, and so, where the
/// program gets registers, the same register.
pub proof fn lemma_phi_shares_node(p: ProgramView, b: int, i: int, m: int)
    requires
        p.well_formed(),
        p.has(b, i),
        p.at(b, i) is Assignment,
        p.at(b, i)->Assignment_value is Phi,
        0 <= m < p.at(b, i)->Assignment_value->Phi_0.len(),
    ensures
        p.table().node(p.at(b, i)->Assignment_value->Phi_0[m]) == p.table().node(p.at(b, i)->Assignment_id),
        p.allocation() matches Ok(registers) ==> registers.get(p.at(b, i)->Assignment_value->Phi_0[m])
            == registers.get(p.at(b, i)->Assignment_id) && registers.get(p.at(b, i)->Assignment_id) is Some,
{
    let vars = assigned_ids(p.blocks);
    let list = phis_of(p.blocks);
    let id = p.at(b, i)->Assignment_id;
    let operands = p.at(b, i)->Assignment_value->Phi_0;
    let v = operands[m];
    let start = Numbering { nodes: Seq::new(vars.len(), |k: int| None), next: 0, full: false };
    lemma_number_phis(start, vars, list, 0);
    lemma_number_rest(start.phis(vars, list, 0), vars, list, 0);
    let nodes = p.numbering().nodes;
    let j = lemma_phi_of(p.blocks, b, i);
    assert(joined_phi(vars, nodes, list[j]));
    // the phi and its operand are assigned, so each has its place among the values
    let k = lemma_assigned_index(p.blocks, b, i);
    lemma_index_of(vars, id, 0);
    assert(p.reads(b, i, v)) by {
        assert(operands.contains(operands[m]));
    }
    assert(p.defined(v));
    let (db, di) = choose|db: int, di: int| p.assigns(db, di, v);
    let kv = lemma_assigned_index(p.blocks, db, di);
    lemma_index_of(vars, v, 0);
    assert(index_of(vars, list[j].operands[m], 0) is Some);
}

} // verus!
