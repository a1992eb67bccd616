//! The schedule of a backward pass over a forward graph: which nodes are
//! reached from the output, the dense index each one gets, the operands whose
//! gradients each rule produces, and how many contributions every node waits
//! for before its own rule may run.
use vstd::prelude::*;
use vstd::set_lib::{lemma_int_range, lemma_len_subset, set_int_range};

verus! {

/// A node of a forward graph as the backward pass sees it. Nodes are named by
/// their position in the graph; `edge` lists the operands of the
/// differentiable operation that produced the node and is `None` for a leaf.
pub struct GraphNode {
    pub requires_grad: bool,
    pub edge: Option<Vec<usize>>,
}

/// The operands the backward pass follows out of node `g`: those of its
/// operation when it requires gradients, none otherwise.
pub open spec fn followed(graph: Seq<GraphNode>, g: int) -> Seq<usize> {
    if graph[g].requires_grad && graph[g].edge is Some {
        graph[g].edge->0@
    } else {
        Seq::empty()
    }
}

/// Every followed operand names a node of the graph.
pub open spec fn graph_closed(graph: Seq<GraphNode>) -> bool {
    forall|g: int, k: int|
        0 <= g < graph.len() && 0 <= k < followed(graph, g).len() ==> #[trigger] followed(graph, g)[k]
            < graph.len()
}

/// Number of followed operand references out of the first `m` nodes.
pub open spec fn edges_below(graph: Seq<GraphNode>, m: int) -> nat
    decreases m,
{
    if m <= 0 {
        0
    } else {
        edges_below(graph, m - 1) + followed(graph, m - 1).len()
    }
}

/// Number of followed operand references out of the nodes listed in `ids`.
pub open spec fn edges_of(graph: Seq<GraphNode>, ids: Seq<usize>) -> nat
    decreases ids.len(),
{
    if ids.len() == 0 {
        0
    } else {
        edges_of(graph, ids.drop_last()) + followed(graph, ids.last() as int).len()
    }
}

/// The rows of an operand table.
pub open spec fn rows_of(ops: Seq<Vec<usize>>) -> Seq<Seq<usize>> {
    Seq::new(ops.len(), |u: int| ops[u]@)
}

/// Slot `(u, k)` exists in `rows`.
pub open spec fn is_entry(rows: Seq<Seq<usize>>, u: int, k: int) -> bool {
    0 <= u < rows.len() && 0 <= k < rows[u].len()
}

/// Slot `(u1, k1)` is visited before slot `(u2, k2)` (rows in order, then
/// positions within a row).
pub open spec fn lex_before(u1: int, k1: int, u2: int, k2: int) -> bool {
    u1 < u2 || (u1 == u2 && k1 < k2)
}

/// Index `v` sits in a slot visited before `(u, k)`.
pub open spec fn occurs_before(rows: Seq<Seq<usize>>, v: usize, u: int, k: int) -> bool {
    exists|a: int, b: int| is_entry(rows, a, b) && lex_before(a, b, u, k) && #[trigger] rows[a][b] == v
}

/// Dense indices are handed out in order of first appearance: before any slot
/// holding index `w`, every index from 1 below `w` has already appeared.
pub open spec fn discovery_ordered(rows: Seq<Seq<usize>>) -> bool {
    forall|u: int, k: int, v: usize|
        #![trigger occurs_before(rows, v, u, k)]
        is_entry(rows, u, k) && 1 <= v < rows[u][k] ==> occurs_before(rows, v, u, k)
}

/// Index `v` appears in some slot.
pub open spec fn appears(rows: Seq<Seq<usize>>, v: usize) -> bool {
    exists|u: int, k: int| is_entry(rows, u, k) && #[trigger] rows[u][k] == v
}

/// Every index from 1 below `n` appears in some slot.
pub open spec fn all_reached(rows: Seq<Seq<usize>>, n: int) -> bool {
    forall|v: usize| 1 <= v < n ==> #[trigger] appears(rows, v)
}

/// How often `v` occurs in `s`.
pub open spec fn count_of(s: Seq<usize>, v: usize) -> nat
    decreases s.len(),
{
    if s.len() == 0 {
        0
    } else {
        count_of(s.drop_last(), v) + (if s.last() == v {
            1nat
        } else {
            0nat
        })
    }
}

/// How often `v` occurs over all rows: the number of gradient contributions
/// index `v` receives.
pub open spec fn in_count(rows: Seq<Seq<usize>>, v: usize) -> nat
    decreases rows.len(),
{
    if rows.len() == 0 {
        0
    } else {
        in_count(rows.drop_last(), v) + count_of(rows.last(), v)
    }
}

/// Number of slots over all rows.
pub open spec fn slot_total(rows: Seq<Seq<usize>>) -> nat
    decreases rows.len(),
{
    if rows.len() == 0 {
        0
    } else {
        slot_total(rows.drop_last()) + rows.last().len()
    }
}

/// A compiled backward pass. The nodes reached from the output get dense
/// indices in order of discovery, the output first; `nodes[u]` is the graph
/// node behind index `u` and `operands[u]` the dense indices of its followed
/// operands. `base_in_degree[v]` counts the slots that name `v`.
pub struct BackwardPlan {
    pub nodes: Vec<usize>,
    pub seed_idx: usize,
    pub operands: Vec<Vec<usize>>,
    pub requires_grad: Vec<bool>,
    pub has_rule: Vec<bool>,
    pub is_leaf: Vec<bool>,
    pub base_in_degree: Vec<usize>,
}

impl BackwardPlan {
    /// The operand table as rows of dense indices.
    pub open spec fn rows(&self) -> Seq<Seq<usize>> {
        rows_of(self.operands@)
    }

    /// The plan is the breadth-first walk of `graph` from `seed`: index 0 is
    /// `seed`, distinct indices name distinct graph nodes, the row of every
    /// index lists its followed operands in order, indices are handed out in
    /// order of first appearance, every index but the seed's is reached, and
    /// the per-node flags and in-degrees are those of the graph.
    pub open spec fn plans(&self, graph: Seq<GraphNode>, seed: usize) -> bool {
        let n = self.nodes@.len();
        &&& n >= 1
        &&& self.seed_idx == 0
        &&& self.nodes@[0] == seed
        &&& self.operands@.len() == n
        &&& self.requires_grad@.len() == n
        &&& self.has_rule@.len() == n
        &&& self.is_leaf@.len() == n
        &&& self.base_in_degree@.len() == n
        &&& forall|u: int| 0 <= u < n ==> #[trigger] self.nodes@[u] < graph.len()
        &&& forall|u1: int, u2: int| 0 <= u1 < u2 < n ==> self.nodes@[u1] != self.nodes@[u2]
        &&& forall|u: int|
            0 <= u < n ==> {
                let g = graph[#[trigger] self.nodes@[u] as int];
                &&& self.requires_grad@[u] == g.requires_grad
                &&& self.is_leaf@[u] == (g.edge is None)
                &&& self.has_rule@[u] == (g.requires_grad && g.edge is Some)
                &&& self.operands@[u]@.len() == followed(graph, self.nodes@[u] as int).len()
            }
        &&& forall|u: int, k: int|
            0 <= u < n && 0 <= k < self.operands@[u]@.len() ==> #[trigger] self.operands@[u]@[k] < n
                && self.nodes@[self.operands@[u]@[k] as int] == followed(graph, self.nodes@[u] as int)[k]
        &&& discovery_ordered(self.rows())
        &&& all_reached(self.rows(), n as int)
        &&& forall|v: int| 0 <= v < n ==> #[trigger] self.base_in_degree@[v] == in_count(self.rows(), v as usize)
    }
}

/// The flags the plan keeps for a node: whether it takes gradients, whether
/// it has a rule of its own, and whether it is a leaf.
pub open spec fn node_flags(g: GraphNode, requires_grad: bool, has_rule: bool, is_leaf: bool) -> bool {
    &&& requires_grad == g.requires_grad
    &&& is_leaf == (g.edge is None)
    &&& has_rule == (g.requires_grad && g.edge is Some)
}

impl BackwardPlan {
    /// Walk the graph breadth-first from `seed`, handing every node reached
    /// a dense index when it is first met as an operand, recording each
    /// node's operands as dense indices, then count the contributions every
    /// node receives.
    pub fn build(graph: &[GraphNode], seed: usize) -> (r: BackwardPlan)
        requires
            graph_closed(graph@),
            seed < graph@.len(),
            edges_below(graph@, graph@.len() as int) <= usize::MAX,
        ensures
            r.plans(graph@, seed),
    {
        let glen = graph.len();
        let mut index_of: Vec<Option<usize>> = Vec::new();
        let mut g0: usize = 0;
        while g0 < glen
            invariant
                g0 <= glen,
                index_of@.len() == g0,
                forall|g: int| 0 <= g < g0 ==> (#[trigger] index_of@[g]) is None,
            decreases glen - g0,
        {
            index_of.push(None);
            g0 += 1;
        }
        index_of.set(seed, Some(0));
        let mut nodes: Vec<usize> = Vec::new();
        nodes.push(seed);
        let mut operands: Vec<Vec<usize>> = Vec::new();
        operands.push(Vec::new());
        let mut requires_v: Vec<bool> = Vec::new();
        requires_v.push(graph[seed].requires_grad);
        let mut has_rule: Vec<bool> = Vec::new();
        has_rule.push(graph[seed].requires_grad && graph[seed].edge.is_some());
        let mut is_leaf: Vec<bool> = Vec::new();
        is_leaf.push(graph[seed].edge.is_none());
        let ghost mut first: Seq<(int, int)> = seq![(0int, 0int)];
        let mut head: usize = 0;
        proof {
            assert(rows_of(operands@) =~= seq![Seq::<usize>::empty()]);
        }
        while head < nodes.len()
            invariant
                graph_closed(graph@),
                seed < graph@.len(),
                glen == graph@.len(),
                1 <= nodes@.len() <= glen,
                head <= nodes@.len(),
                nodes@[0] == seed,
                index_of@.len() == glen,
                forall|i: int|
                    0 <= i < nodes@.len() ==> #[trigger] nodes@[i] < glen && index_of@[nodes@[i] as int]
                        == Some(i as usize),
                forall|g: int|
                    0 <= g < glen && (#[trigger] index_of@[g]) is Some ==> index_of@[g]->0 < nodes@.len()
                        && nodes@[index_of@[g]->0 as int] == g,
                operands@.len() == nodes@.len(),
                requires_v@.len() == nodes@.len(),
                has_rule@.len() == nodes@.len(),
                is_leaf@.len() == nodes@.len(),
                forall|u: int|
                    0 <= u < nodes@.len() ==> node_flags(
                        graph@[#[trigger] nodes@[u] as int],
                        requires_v@[u],
                        has_rule@[u],
                        is_leaf@[u],
                    ),
                forall|u: int| head <= u < nodes@.len() ==> (#[trigger] operands@[u])@.len() == 0,
                forall|u: int|
                    0 <= u < head ==> (#[trigger] operands@[u])@.len() == followed(graph@, nodes@[u] as int).len(),
                forall|u: int, k: int|
                    0 <= u < head && 0 <= k < operands@[u]@.len() ==> #[trigger] operands@[u]@[k] < nodes@.len()
                        && nodes@[operands@[u]@[k] as int] == followed(graph@, nodes@[u] as int)[k],
                first_slots(rows_of(operands@), first, nodes@.len() as int),
                slots_before(rows_of(operands@), head as int, 0),
            decreases glen - head,
        {
            let u = head;
            let g = nodes[u];
            let mut row: Vec<usize> = Vec::new();
            proof {
                assert(operands@[u as int]@ =~= row@);
                assert(rows_of(operands@).update(u as int, row@) =~= rows_of(operands@));
            }
            if graph[g].requires_grad {
                if let Some(edge) = &graph[g].edge {
                    let mut k: usize = 0;
                    while k < edge.len()
                        invariant
                            graph_closed(graph@),
                            glen == graph@.len(),
                            1 <= nodes@.len() <= glen,
                            u == head,
                            u < nodes@.len(),
                            g == nodes@[u as int],
                            followed(graph@, g as int) == edge@,
                            nodes@[0] == seed,
                            index_of@.len() == glen,
                            forall|i: int|
                                0 <= i < nodes@.len() ==> #[trigger] nodes@[i] < glen && index_of@[nodes@[i] as int]
                                    == Some(i as usize),
                            forall|g: int|
                                0 <= g < glen && (#[trigger] index_of@[g]) is Some ==> index_of@[g]->0
                                    < nodes@.len() && nodes@[index_of@[g]->0 as int] == g,
                            operands@.len() == nodes@.len(),
                            requires_v@.len() == nodes@.len(),
                            has_rule@.len() == nodes@.len(),
                            is_leaf@.len() == nodes@.len(),
                            forall|u: int|
                                0 <= u < nodes@.len() ==> node_flags(
                                    graph@[#[trigger] nodes@[u] as int],
                                    requires_v@[u],
                                    has_rule@[u],
                                    is_leaf@[u],
                                ),
                            forall|w: int| head <= w < nodes@.len() ==> (#[trigger] operands@[w])@.len() == 0,
                            forall|w: int|
                                0 <= w < head ==> (#[trigger] operands@[w])@.len() == followed(
                                    graph@,
                                    nodes@[w] as int,
                                ).len(),
                            forall|w: int, j: int|
                                0 <= w < head && 0 <= j < operands@[w]@.len() ==> #[trigger] operands@[w]@[j]
                                    < nodes@.len() && nodes@[operands@[w]@[j] as int] == followed(
                                    graph@,
                                    nodes@[w] as int,
                                )[j],
                            k <= edge@.len(),
                            row@.len() == k,
                            forall|j: int|
                                0 <= j < k ==> #[trigger] row@[j] < nodes@.len() && nodes@[row@[j] as int]
                                    == edge@[j],
                            first_slots(rows_of(operands@).update(u as int, row@), first, nodes@.len() as int),
                            slots_before(rows_of(operands@).update(u as int, row@), u as int, k as int),
                        decreases edge@.len() - k,
                    {
                        let og = edge[k];
                        proof {
                            assert(followed(graph@, g as int)[k as int] == og);
                        }
                        let ghost rc = rows_of(operands@).update(u as int, row@);
                        let ghost mut next_rows = rc;
                        let v = match index_of[og] {
                            Some(v) => {
                                proof {
                                    lemma_slot_existing(rc, first, nodes@.len() as int, u as int, v);
                                    next_rows = rc.update(u as int, rc[u as int].push(v));
                                }
                                v
                            },
                            None => {
                                let v = nodes.len();
                                proof {
                                    assert forall|i: int| 0 <= i < nodes@.len() implies nodes@[i] != og by {
                                        if nodes@[i] == og {
                                            assert(index_of@[og as int] == Some(i as usize));
                                        }
                                    }
                                    let s2 = nodes@.push(og);
                                    assert forall|i: int, j: int| 0 <= i < j < s2.len() implies s2[i] != s2[j] by {
                                        if j < nodes@.len() {
                                            assert(index_of@[nodes@[i] as int] == Some(i as usize));
                                            assert(index_of@[nodes@[j] as int] == Some(j as usize));
                                        }
                                    }
                                    assert forall|i: int| 0 <= i < s2.len() implies #[trigger] s2[i] < glen by {
                                        if i < nodes@.len() {
                                            assert(nodes@[i] < glen);
                                        }
                                    }
                                    lemma_distinct_len(s2, glen as nat);
                                    lemma_slot_fresh(rc, first, nodes@.len() as int, u as int);
                                    next_rows = rc.push(Seq::empty()).update(u as int, rc[u as int].push(v));
                                    first = first.push((u as int, k as int));
                                }
                                let ghost ops0 = operands@;
                                nodes.push(og);
                                operands.push(Vec::new());
                                requires_v.push(graph[og].requires_grad);
                                has_rule.push(graph[og].requires_grad && graph[og].edge.is_some());
                                is_leaf.push(graph[og].edge.is_none());
                                index_of.set(og, Some(v));
                                proof {
                                    assert(rows_of(operands@) =~= rows_of(ops0).push(Seq::empty()));
                                }
                                v
                            },
                        };
                        row.push(v);
                        proof {
                            assert(rows_of(operands@).update(u as int, row@) =~= next_rows);
                        }
                        k += 1;
                    }
                }
            }
            proof {
                assert(first_slots(rows_of(operands@).update(u as int, row@), first, nodes@.len() as int));
                assert(slots_before(rows_of(operands@).update(u as int, row@), u as int, row@.len() as int));
                assert(row@.len() == followed(graph@, g as int).len());
                assert(forall|j: int|
                    0 <= j < row@.len() ==> #[trigger] row@[j] < nodes@.len() && nodes@[row@[j] as int]
                        == followed(graph@, g as int)[j]);
            }
            let ghost ops_before = operands@;
            operands.set(u, row);
            proof {
                assert(rows_of(operands@) =~= rows_of(ops_before).update(u as int, operands@[u as int]@));
                let r2 = rows_of(operands@);
                assert forall|a: int, b: int| #[trigger] is_entry(r2, a, b) implies lex_before(a, b, u + 1, 0) by {
                    assert(is_entry(rows_of(ops_before).update(u as int, operands@[u as int]@), a, b));
                }
            }
            head += 1;
        }
        proof {
            let rows = rows_of(operands@);
            assert forall|u: int| 0 <= u < rows.len() implies (#[trigger] rows[u]).len() == followed(
                graph@,
                nodes@[u] as int,
            ).len() by {
                assert(rows[u] == operands@[u]@);
            }
            lemma_slot_total_edges(rows, graph@, nodes@);
            assert forall|i: int, j: int| 0 <= i < j < nodes@.len() implies nodes@[i] != nodes@[j] by {
                assert(index_of@[nodes@[i] as int] == Some(i as usize));
                assert(index_of@[nodes@[j] as int] == Some(j as usize));
            }
            assert forall|i: int| 0 <= i < nodes@.len() implies #[trigger] nodes@[i] < glen by {}
            lemma_edges_of_distinct(graph@, nodes@, glen as int);
            lemma_first_slots_order(rows, first, nodes@.len() as int);
        }
        let base_in_degree = count_in_degrees(&operands, nodes.len());
        let r = BackwardPlan {
            nodes,
            seed_idx: 0,
            operands,
            requires_grad: requires_v,
            has_rule,
            is_leaf,
            base_in_degree,
        };
        proof {
            assert forall|u1: int, u2: int| 0 <= u1 < u2 < r.nodes@.len() implies r.nodes@[u1] != r.nodes@[u2] by {
                assert(index_of@[r.nodes@[u1] as int] == Some(u1 as usize));
                assert(index_of@[r.nodes@[u2] as int] == Some(u2 as usize));
            }
        }
        r
    }
}

proof fn lemma_count_le(s: Seq<usize>, v: usize)
    ensures
        count_of(s, v) <= s.len(),
    decreases s.len(),
{
    if s.len() > 0 {
        lemma_count_le(s.drop_last(), v);
    }
}

proof fn lemma_in_count_le(rows: Seq<Seq<usize>>, v: usize)
    ensures
        in_count(rows, v) <= slot_total(rows),
    decreases rows.len(),
{
    if rows.len() > 0 {
        lemma_in_count_le(rows.drop_last(), v);
        lemma_count_le(rows.last(), v);
    }
}

proof fn lemma_take_step(rows: Seq<Seq<usize>>, u: int, v: usize)
    requires
        0 <= u < rows.len(),
    ensures
        slot_total(rows.take(u + 1)) == slot_total(rows.take(u)) + rows[u].len(),
        in_count(rows.take(u + 1), v) == in_count(rows.take(u), v) + count_of(rows[u], v),
{
    assert(rows.take(u + 1).drop_last() =~= rows.take(u));
}

proof fn lemma_count_take_step(s: Seq<usize>, k: int, v: usize)
    requires
        0 <= k < s.len(),
    ensures
        count_of(s.take(k + 1), v) == count_of(s.take(k), v) + (if s[k] == v {
            1nat
        } else {
            0nat
        }),
{
    assert(s.take(k + 1).drop_last() =~= s.take(k));
}

proof fn lemma_slot_total_prefix(rows: Seq<Seq<usize>>, u: int)
    requires
        0 <= u <= rows.len(),
    ensures
        slot_total(rows.take(u)) <= slot_total(rows),
    decreases rows.len(),
{
    if u == rows.len() {
        assert(rows.take(u) =~= rows);
    } else {
        lemma_slot_total_prefix(rows.drop_last(), u);
        assert(rows.drop_last().take(u) =~= rows.take(u));
    }
}

/// The slots of rows shaped like the followed operands of `ids` number as
/// many as those operands.
proof fn lemma_slot_total_edges(rows: Seq<Seq<usize>>, graph: Seq<GraphNode>, ids: Seq<usize>)
    requires
        rows.len() == ids.len(),
        forall|u: int| 0 <= u < rows.len() ==> (#[trigger] rows[u]).len() == followed(graph, ids[u] as int).len(),
    ensures
        slot_total(rows) == edges_of(graph, ids),
    decreases rows.len(),
{
    if rows.len() > 0 {
        lemma_slot_total_edges(rows.drop_last(), graph, ids.drop_last());
        assert(rows.last() == rows[rows.len() - 1]);
    }
}

proof fn lemma_edges_of_remove(graph: Seq<GraphNode>, ids: Seq<usize>, p: int)
    requires
        0 <= p < ids.len(),
    ensures
        edges_of(graph, ids) == edges_of(graph, ids.remove(p)) + followed(graph, ids[p] as int).len(),
    decreases ids.len(),
{
    if p == ids.len() - 1 {
        assert(ids.remove(p) =~= ids.drop_last());
    } else {
        lemma_edges_of_remove(graph, ids.drop_last(), p);
        assert(ids.drop_last().remove(p) =~= ids.remove(p).drop_last());
        assert(ids.remove(p).last() == ids.last());
    }
}

/// Distinct nodes below `m` have no more followed operands than all nodes
/// below `m` together.
proof fn lemma_edges_of_distinct(graph: Seq<GraphNode>, ids: Seq<usize>, m: int)
    requires
        forall|i: int, j: int| 0 <= i < j < ids.len() ==> ids[i] != ids[j],
        forall|i: int| 0 <= i < ids.len() ==> #[trigger] ids[i] < m,
    ensures
        edges_of(graph, ids) <= edges_below(graph, m),
    decreases m,
{
    if m <= 0 {
        if ids.len() > 0 {
            assert(ids[0] < m);
        }
    } else if exists|p: int| 0 <= p < ids.len() && ids[p] == m - 1 {
        let p = choose|p: int| 0 <= p < ids.len() && ids[p] == m - 1;
        lemma_edges_of_remove(graph, ids, p);
        let rest = ids.remove(p);
        assert forall|i: int| 0 <= i < rest.len() implies #[trigger] rest[i] < m - 1 by {
            if i < p {
                assert(rest[i] == ids[i] && ids[i] != ids[p]);
            } else {
                assert(rest[i] == ids[i + 1] && ids[i + 1] != ids[p]);
            }
        }
        assert forall|i: int, j: int| 0 <= i < j < rest.len() implies rest[i] != rest[j] by {
            let i2 = if i < p { i } else { i + 1 };
            let j2 = if j < p { j } else { j + 1 };
            assert(rest[i] == ids[i2] && rest[j] == ids[j2]);
        }
        lemma_edges_of_distinct(graph, rest, m - 1);
    } else {
        assert forall|i: int| 0 <= i < ids.len() implies #[trigger] ids[i] < m - 1 by {
            assert(ids[i] != m - 1);
        }
        lemma_edges_of_distinct(graph, ids, m - 1);
    }
}

/// Count, for every index below `n`, the slots of `operands` naming it.
fn count_in_degrees(operands: &Vec<Vec<usize>>, n: usize) -> (deg: Vec<usize>)
    requires
        forall|u: int, k: int|
            0 <= u < operands@.len() && 0 <= k < operands@[u]@.len() ==> #[trigger] operands@[u]@[k] < n,
        slot_total(rows_of(operands@)) <= usize::MAX,
    ensures
        deg@.len() == n,
        forall|v: int| 0 <= v < n ==> #[trigger] deg@[v] == in_count(rows_of(operands@), v as usize),
{
    let ghost rows = rows_of(operands@);
    let mut deg: Vec<usize> = Vec::new();
    let mut i: usize = 0;
    while i < n
        invariant
            i <= n,
            deg@.len() == i,
            forall|v: int| 0 <= v < i ==> #[trigger] deg@[v] == 0,
        decreases n - i,
    {
        deg.push(0);
        i += 1;
    }
    let mut u: usize = 0;
    proof {
        assert(rows.take(0) =~= Seq::<Seq<usize>>::empty());
    }
    while u < operands.len()
        invariant
            rows == rows_of(operands@),
            u <= operands@.len(),
            deg@.len() == n,
            forall|w: int, k: int|
                0 <= w < operands@.len() && 0 <= k < operands@[w]@.len() ==> #[trigger] operands@[w]@[k] < n,
            slot_total(rows) <= usize::MAX,
            forall|v: int| 0 <= v < n ==> #[trigger] deg@[v] == in_count(rows.take(u as int), v as usize),
        decreases operands@.len() - u,
    {
        let row = &operands[u];
        let mut k: usize = 0;
        proof {
            assert(row@.take(0) =~= Seq::<usize>::empty());
            assert forall|v: int| 0 <= v < n implies #[trigger] deg@[v] == in_count(rows.take(u as int), v as usize)
                + count_of(row@.take(0), v as usize) by {}
        }
        while k < row.len()
            invariant
                rows == rows_of(operands@),
                u < operands@.len(),
                row@ == operands@[u as int]@,
                k <= row@.len(),
                deg@.len() == n,
                forall|j: int| 0 <= j < row@.len() ==> #[trigger] row@[j] < n,
                slot_total(rows) <= usize::MAX,
                forall|v: int|
                    0 <= v < n ==> #[trigger] deg@[v] == in_count(rows.take(u as int), v as usize) + count_of(
                        row@.take(k as int),
                        v as usize,
                    ),
            decreases row@.len() - k,
        {
            let v = row[k];
            proof {
                lemma_count_take_step(row@, k as int, v);
                lemma_in_count_le(rows.take(u as int), v);
                lemma_count_le(row@.take(k + 1), v);
                lemma_take_step(rows, u as int, v);
                lemma_slot_total_prefix(rows, u + 1);
                assert(rows[u as int] == row@);
            }
            deg.set(v, deg[v] + 1);
            proof {
                assert forall|w: int| 0 <= w < n implies #[trigger] deg@[w] == in_count(rows.take(u as int), w as usize)
                    + count_of(row@.take(k + 1), w as usize) by {
                    lemma_count_take_step(row@, k as int, w as usize);
                }
            }
            k += 1;
        }
        proof {
            assert(row@.take(row@.len() as int) =~= row@);
            assert forall|v: int| 0 <= v < n implies #[trigger] deg@[v] == in_count(rows.take(u + 1), v as usize) by {
                lemma_take_step(rows, u as int, v as usize);
            }
        }
        u += 1;
    }
    proof {
        assert(rows.take(operands@.len() as int) =~= rows);
    }
    deg
}

/// A sequence of distinct indices below `m` has at most `m` entries.
proof fn lemma_distinct_len(s: Seq<usize>, m: nat)
    requires
        forall|i: int, j: int| 0 <= i < j < s.len() ==> s[i] != s[j],
        forall|i: int| 0 <= i < s.len() ==> #[trigger] s[i] < m,
    ensures
        s.len() <= m,
{
    let t = s.map_values(|x: usize| x as int);
    assert(t.no_duplicates()) by {
        assert forall|i: int, j: int| 0 <= i < t.len() && 0 <= j < t.len() && i != j implies t[i] != t[j] by {
            if i < j {
                assert(s[i] != s[j]);
            } else {
                assert(s[j] != s[i]);
            }
        }
    }
    t.unique_seq_to_set();
    assert(t.to_set().subset_of(set_int_range(0, m as int))) by {
        assert forall|x: int| t.to_set().contains(x) implies set_int_range(0, m as int).contains(x) by {
            let i = choose|i: int| 0 <= i < t.len() && t[i] == x;
            assert(s[i] < m);
        }
    }
    lemma_int_range(0, m as int);
    lemma_len_subset(t.to_set(), set_int_range(0, m as int));
}

/// Every slot of `rows` comes before `(u, k)`.
spec fn slots_before(rows: Seq<Seq<usize>>, u: int, k: int) -> bool {
    forall|a: int, b: int| #[trigger] is_entry(rows, a, b) ==> lex_before(a, b, u, k)
}

/// `first[v]` is the slot where index `v` (from 1 below `n`) was handed out:
/// the slots are in the order of the indices, and no slot holds an index
/// before the slot where it was handed out.
spec fn first_slots(rows: Seq<Seq<usize>>, first: Seq<(int, int)>, n: int) -> bool {
    &&& first.len() == n
    &&& forall|v: int|
        1 <= v < n ==> is_entry(rows, (#[trigger] first[v]).0, first[v].1) && rows[first[v].0][first[v].1] == v
    &&& forall|v1: int, v2: int|
        1 <= v1 < v2 < n ==> lex_before(
            (#[trigger] first[v1]).0,
            first[v1].1,
            (#[trigger] first[v2]).0,
            first[v2].1,
        )
    &&& forall|a: int, b: int|
        is_entry(rows, a, b) && #[trigger] rows[a][b] >= 1 ==> rows[a][b] < n && !lex_before(
            a,
            b,
            first[rows[a][b] as int].0,
            first[rows[a][b] as int].1,
        )
}

/// Handing out an index that was seen before at the next slot of row `u`.
proof fn lemma_slot_existing(rows: Seq<Seq<usize>>, first: Seq<(int, int)>, n: int, u: int, v: usize)
    requires
        first_slots(rows, first, n),
        0 <= u < rows.len(),
        slots_before(rows, u, rows[u].len() as int),
        v < n,
    ensures
        first_slots(rows.update(u, rows[u].push(v)), first, n),
        slots_before(rows.update(u, rows[u].push(v)), u, rows[u].len() + 1int),
{
    let k = rows[u].len() as int;
    let r2 = rows.update(u, rows[u].push(v));
    assert forall|a: int, b: int| #[trigger] is_entry(r2, a, b) implies lex_before(a, b, u, k + 1) by {
        if !(a == u && b == k) {
            assert(is_entry(rows, a, b));
        }
    }
    assert forall|x: int| 1 <= x < n implies is_entry(r2, (#[trigger] first[x]).0, first[x].1)
        && r2[first[x].0][first[x].1] == x by {
        assert(is_entry(rows, first[x].0, first[x].1));
    }
    assert forall|a: int, b: int| is_entry(r2, a, b) && #[trigger] r2[a][b] >= 1 implies r2[a][b] < n
        && !lex_before(a, b, first[r2[a][b] as int].0, first[r2[a][b] as int].1) by {
        if a == u && b == k {
            let f = first[v as int];
            assert(is_entry(rows, f.0, f.1));
            assert(lex_before(f.0, f.1, u, k));
        } else {
            assert(is_entry(rows, a, b));
            assert(rows[a][b] >= 1);
        }
    }
}

/// Handing out the fresh index `n` at the next slot of row `u`, with an empty
/// row added for it.
proof fn lemma_slot_fresh(rows: Seq<Seq<usize>>, first: Seq<(int, int)>, n: int, u: int)
    requires
        first_slots(rows, first, n),
        0 <= u < rows.len(),
        rows.len() == n,
        n >= 1,
        n < usize::MAX,
        slots_before(rows, u, rows[u].len() as int),
    ensures
        first_slots(
            rows.push(Seq::empty()).update(u, rows[u].push(n as usize)),
            first.push((u, rows[u].len() as int)),
            n + 1,
        ),
        slots_before(rows.push(Seq::empty()).update(u, rows[u].push(n as usize)), u, rows[u].len() + 1int),
{
    let k = rows[u].len() as int;
    let r2 = rows.push(Seq::empty()).update(u, rows[u].push(n as usize));
    let f2 = first.push((u, k));
    assert forall|a: int, b: int| #[trigger] is_entry(r2, a, b) implies lex_before(a, b, u, k + 1) by {
        if !(a == u && b == k) {
            assert(a < rows.len());
            assert(is_entry(rows, a, b));
        }
    }
    assert forall|x: int| 1 <= x < n + 1 implies is_entry(r2, (#[trigger] f2[x]).0, f2[x].1)
        && r2[f2[x].0][f2[x].1] == x by {
        if x < n {
            assert(f2[x] == first[x]);
            assert(is_entry(rows, first[x].0, first[x].1));
        }
    }
    assert forall|v1: int, v2: int| 1 <= v1 < v2 < n + 1 implies lex_before(
        (#[trigger] f2[v1]).0,
        f2[v1].1,
        (#[trigger] f2[v2]).0,
        f2[v2].1,
    ) by {
        assert(f2[v1] == first[v1]);
        assert(is_entry(rows, first[v1].0, first[v1].1));
        if v2 < n {
            assert(f2[v2] == first[v2]);
        }
    }
    assert forall|a: int, b: int| is_entry(r2, a, b) && #[trigger] r2[a][b] >= 1 implies r2[a][b] < n + 1
        && !lex_before(a, b, f2[r2[a][b] as int].0, f2[r2[a][b] as int].1) by {
        if !(a == u && b == k) {
            assert(a < rows.len());
            assert(is_entry(rows, a, b));
            assert(rows[a][b] >= 1);
            assert(f2[r2[a][b] as int] == first[rows[a][b] as int]);
        }
    }
}

/// The slot bookkeeping yields the discovery order and reach of the plan.
proof fn lemma_first_slots_order(rows: Seq<Seq<usize>>, first: Seq<(int, int)>, n: int)
    requires
        first_slots(rows, first, n),
    ensures
        discovery_ordered(rows),
        all_reached(rows, n),
{
    assert forall|u: int, k: int, v: usize|
        #![trigger occurs_before(rows, v, u, k)]
        is_entry(rows, u, k) && 1 <= v < rows[u][k] implies occurs_before(rows, v, u, k) by {
        let w = rows[u][k];
        let fv = first[v as int];
        let fw = first[w as int];
        assert(lex_before(fv.0, fv.1, fw.0, fw.1));
        assert(is_entry(rows, fv.0, fv.1) && rows[fv.0][fv.1] == v);
    }
    assert forall|v: usize| 1 <= v < n implies #[trigger] appears(rows, v) by {
        let f = first[v as int];
        assert(is_entry(rows, f.0, f.1) && rows[f.0][f.1] == v);
    }
}

impl BackwardPlan {
    /// The tables have one entry per index, every operand names an index,
    /// and the in-degrees count the slots naming each index.
    pub open spec fn wf(&self) -> bool {
        let n = self.nodes@.len();
        &&& self.seed_idx < n
        &&& self.operands@.len() == n
        &&& self.requires_grad@.len() == n
        &&& self.has_rule@.len() == n
        &&& self.is_leaf@.len() == n
        &&& self.base_in_degree@.len() == n
        &&& forall|u: int, k: int|
            0 <= u < n && 0 <= k < self.operands@[u]@.len() ==> #[trigger] self.operands@[u]@[k] < n
        &&& forall|v: int| 0 <= v < n ==> #[trigger] self.base_in_degree@[v] == in_count(self.rows(), v as usize)
    }

    /// Index `u`'s rule runs when it is reached: it takes gradients and has
    /// a rule.
    pub open spec fn active(&self, u: int) -> bool {
        self.requires_grad@[u] && self.has_rule@[u]
    }

    /// In the run order `order`, slot `k` of the `j`-th index hands index
    /// `v` a gradient.
    pub open spec fn feeds(&self, order: Seq<usize>, j: int, k: int, v: usize) -> bool {
        &&& 0 <= j < order.len()
        &&& self.active(order[j] as int)
        &&& 0 <= k < self.rows()[order[j] as int].len()
        &&& self.rows()[order[j] as int][k] == v
    }

    /// Every slot naming `v` belongs to an index whose rule runs in `order`.
    pub open spec fn fed_fully(&self, order: Seq<usize>, v: usize) -> bool {
        forall|u: int, k: int|
            is_entry(self.rows(), u, k) && #[trigger] self.rows()[u][k] == v ==> self.active(u) && order.contains(
                u as usize,
            )
    }

    /// The last gradient for `w` arrives after the last one for `v`: some
    /// slot feeding `w` runs after every slot feeding `v`.
    pub open spec fn fed_after(&self, order: Seq<usize>, v: usize, w: usize) -> bool {
        exists|j2: int, k2: int|
            #![trigger self.feeds(order, j2, k2, w)]
            self.feeds(order, j2, k2, w) && forall|j1: int, k1: int|
                #[trigger] self.feeds(order, j1, k1, v) ==> lex_before(j1, k1, j2, k2)
    }
}

/// Contributions to `v` still to come from the first `m` rows whose index is
/// not yet done.
spec fn pending(rows: Seq<Seq<usize>>, done: Seq<bool>, v: usize, m: int) -> nat
    decreases m,
{
    if m <= 0 {
        0
    } else {
        pending(rows, done, v, m - 1) + (if done[m - 1] {
            0nat
        } else {
            count_of(rows[m - 1], v)
        })
    }
}

proof fn lemma_pending_none(rows: Seq<Seq<usize>>, done: Seq<bool>, v: usize, m: int)
    requires
        0 <= m <= rows.len(),
        forall|u: int| 0 <= u < m ==> !(#[trigger] done[u]),
    ensures
        pending(rows, done, v, m) == in_count(rows.take(m), v),
    decreases m,
{
    if m == 0 {
        assert(rows.take(0) =~= Seq::<Seq<usize>>::empty());
    } else {
        lemma_pending_none(rows, done, v, m - 1);
        lemma_take_step(rows, m - 1, v);
    }
}

proof fn lemma_pending_done(rows: Seq<Seq<usize>>, done: Seq<bool>, v: usize, m: int, u: int)
    requires
        0 <= u < done.len(),
        m <= done.len(),
        !done[u],
    ensures
        pending(rows, done.update(u, true), v, m) + (if 0 <= u < m {
            count_of(rows[u], v)
        } else {
            0
        }) == pending(rows, done, v, m),
    decreases m,
{
    if m > 0 {
        lemma_pending_done(rows, done, v, m - 1, u);
    }
}

proof fn lemma_pending_zero(rows: Seq<Seq<usize>>, done: Seq<bool>, v: usize, m: int)
    ensures
        pending(rows, done, v, m) == 0 <==> forall|u: int|
            0 <= u < m && !done[u] ==> #[trigger] count_of(rows[u], v) == 0,
    decreases m,
{
    if m > 0 {
        lemma_pending_zero(rows, done, v, m - 1);
    }
}

proof fn lemma_count_prefix(s: Seq<usize>, k: int, v: usize)
    requires
        0 <= k <= s.len(),
    ensures
        count_of(s.take(k), v) <= count_of(s, v),
    decreases s.len(),
{
    if k == s.len() {
        assert(s.take(k) =~= s);
    } else {
        lemma_count_prefix(s.drop_last(), k, v);
        assert(s.drop_last().take(k) =~= s.take(k));
    }
}

proof fn lemma_count_zero(s: Seq<usize>, v: usize)
    ensures
        count_of(s, v) == 0 <==> forall|j: int| 0 <= j < s.len() ==> s[j] != v,
    decreases s.len(),
{
    if s.len() > 0 {
        lemma_count_zero(s.drop_last(), v);
        if count_of(s, v) == 0 {
            assert forall|j: int| 0 <= j < s.len() implies s[j] != v by {
                if j < s.len() - 1 {
                    assert(s.drop_last()[j] == s[j]);
                }
            }
        } else if count_of(s.drop_last(), v) > 0 {
            let j = choose|j: int| 0 <= j < s.drop_last().len() && s.drop_last()[j] == v;
            assert(s[j] == v);
        } else {
            assert(s[s.len() - 1] == v);
        }
    }
}

proof fn lemma_in_count_row(rows: Seq<Seq<usize>>, u: int, v: usize)
    requires
        0 <= u < rows.len(),
    ensures
        count_of(rows[u], v) <= in_count(rows, v),
    decreases rows.len(),
{
    if u < rows.len() - 1 {
        lemma_in_count_row(rows.drop_last(), u, v);
    }
}

impl BackwardPlan {
    /// The order in which the backward pass visits indices: a first-in
    /// first-out walk from the output in which an index joins the queue once
    /// the last slot naming it has run, and a visited index runs its rule,
    /// handing each operand slot a gradient, when it takes gradients and has
    /// a rule.
    pub fn schedule(&self) -> (order: Vec<usize>)
        requires
            self.wf(),
            self.requires_grad@[self.seed_idx as int],
            in_count(self.rows(), self.seed_idx) == 0,
        ensures
            order@.len() >= 1,
            order@[0] == self.seed_idx,
            forall|i: int| 0 <= i < order@.len() ==> #[trigger] order@[i] < self.nodes@.len(),
            forall|i: int, j: int| 0 <= i < j < order@.len() ==> order@[i] != order@[j],
            forall|v: usize|
                v < self.nodes@.len() ==> (#[trigger] order@.contains(v) <==> (v == self.seed_idx || (in_count(
                    self.rows(),
                    v,
                ) > 0 && self.fed_fully(order@, v)))),
            forall|i1: int, i2: int|
                1 <= i1 < i2 < order@.len() ==> self.fed_after(order@, #[trigger] order@[i1], #[trigger] order@[i2]),
            forall|i: int, j: int, k: int|
                0 <= i < order@.len() && #[trigger] self.feeds(order@, j, k, order@[i]) ==> j < i,
    {
        let n = self.nodes.len();
        let ghost rows = self.rows();
        let mut deg: Vec<usize> = Vec::new();
        let mut i: usize = 0;
        while i < n
            invariant
                self.wf(),
                n == self.nodes@.len(),
                i <= n,
                deg@.len() == i,
                forall|v: int| 0 <= v < i ==> #[trigger] deg@[v] == self.base_in_degree@[v],
            decreases n - i,
        {
            deg.push(self.base_in_degree[i]);
            i += 1;
        }
        let mut order: Vec<usize> = Vec::new();
        order.push(self.seed_idx);
        let ghost mut done: Seq<bool> = Seq::new(n as nat, |u: int| false);
        let ghost mut last: Seq<(int, int)> = seq![(0int, 0int)];
        let mut head: usize = 0;
        proof {
            assert forall|v: int| 0 <= v < n implies #[trigger] deg@[v] == pending(rows, done, v as usize, n as int) by {
                lemma_pending_none(rows, done, v as usize, n as int);
                assert(rows.take(n as int) =~= rows);
            }
            assert forall|v: usize| v < n && deg@[v as int] == 0 && in_count(rows, v) > 0 implies #[trigger] order@.contains(v) by {
                lemma_pending_none(rows, done, v, n as int);
                assert(rows.take(n as int) =~= rows);
            }
        }
        while head < order.len()
            invariant
                self.wf(),
                self.requires_grad@[self.seed_idx as int],
                in_count(rows, self.seed_idx) == 0,
                rows == self.rows(),
                n == self.nodes@.len(),
                1 <= order@.len() <= n,
                head <= order@.len(),
                order@[0] == self.seed_idx,
                forall|i: int| 0 <= i < order@.len() ==> #[trigger] order@[i] < n,
                forall|i: int, j: int| 0 <= i < j < order@.len() ==> order@[i] != order@[j],
                done.len() == n,
                forall|j: int| 0 <= j < head ==> done[#[trigger] order@[j] as int] == self.active(order@[j] as int),
                forall|u: int| 0 <= u < n && #[trigger] done[u] ==> self.active(u) && exists|j: int|
                    0 <= j < head && order@[j] == u,
                deg@.len() == n,
                forall|v: int| 0 <= v < n ==> #[trigger] deg@[v] == pending(rows, done, v as usize, n as int),
                forall|v: usize| v < n && deg@[v as int] == 0 && in_count(rows, v) > 0 ==> #[trigger] order@.contains(v),
                forall|i: int| 0 <= i < order@.len() ==> #[trigger] deg@[order@[i] as int] == 0,
                forall|i: int| 1 <= i < order@.len() ==> in_count(rows, #[trigger] order@[i]) > 0,
                last.len() == order@.len(),
                forall|i: int| 1 <= i < order@.len() ==> (#[trigger] last[i]).0 < i,
                forall|i: int|
                    1 <= i < order@.len() ==> self.feeds(order@, (#[trigger] last[i]).0, last[i].1, order@[i])
                        && lex_before(last[i].0, last[i].1, head as int, 0),
                forall|i1: int, i2: int|
                    1 <= i1 < i2 < order@.len() ==> lex_before(
                        (#[trigger] last[i1]).0,
                        last[i1].1,
                        (#[trigger] last[i2]).0,
                        last[i2].1,
                    ),
                forall|i: int, j: int, k: int|
                    1 <= i < order@.len() && #[trigger] self.feeds(order@, j, k, order@[i]) && lex_before(
                        j,
                        k,
                        head as int,
                        0,
                    ) ==> !lex_before(last[i].0, last[i].1, j, k),
            decreases n - head,
        {
            proof {
                lemma_distinct_len(order@, n as nat);
            }
            let u = order[head];
            proof {
                if done[u as int] {
                    let j = choose|j: int| 0 <= j < head && order@[j] == u;
                    assert(order@[j] != order@[head as int]);
                }
            }
            if self.requires_grad[u] && self.has_rule[u] {
                let row = &self.operands[u];
                let mut k: usize = 0;
                proof {
                    assert(row@.take(0) =~= Seq::<usize>::empty());
                    assert(rows[u as int] == row@);
                }
                while k < row.len()
                    invariant
                        self.wf(),
                        rows == self.rows(),
                        n == self.nodes@.len(),
                        row@ == rows[u as int],
                        u < n,
                        head < order@.len(),
                        order@[head as int] == u,
                        self.active(u as int),
                        !done[u as int],
                        k <= row@.len(),
                        1 <= order@.len() <= n,
                        order@[0] == self.seed_idx,
                        forall|i: int| 0 <= i < order@.len() ==> #[trigger] order@[i] < n,
                        forall|i: int, j: int| 0 <= i < j < order@.len() ==> order@[i] != order@[j],
                        done.len() == n,
                        forall|j: int| 0 <= j < head ==> done[#[trigger] order@[j] as int] == self.active(order@[j] as int),
                        forall|w: int| 0 <= w < n && #[trigger] done[w] ==> self.active(w) && exists|j: int|
                            0 <= j < head && order@[j] == w,
                        deg@.len() == n,
                        forall|v: int|
                            0 <= v < n ==> #[trigger] deg@[v] + count_of(row@.take(k as int), v as usize) == pending(
                                rows,
                                done,
                                v as usize,
                                n as int,
                            ),
                        forall|v: usize| v < n && deg@[v as int] == 0 && in_count(rows, v) > 0 ==> #[trigger] order@.contains(v),
                        forall|i: int| 0 <= i < order@.len() ==> #[trigger] deg@[order@[i] as int] == 0,
                        forall|i: int| 1 <= i < order@.len() ==> in_count(rows, #[trigger] order@[i]) > 0,
                        last.len() == order@.len(),
                        forall|i: int| 1 <= i < order@.len() ==> (#[trigger] last[i]).0 < i,
                forall|i: int| 1 <= i < order@.len() ==> (#[trigger] last[i]).0 < i,
                        forall|i: int|
                            1 <= i < order@.len() ==> self.feeds(order@, (#[trigger] last[i]).0, last[i].1, order@[i])
                                && lex_before(last[i].0, last[i].1, head as int, k as int),
                        forall|i1: int, i2: int|
                            1 <= i1 < i2 < order@.len() ==> lex_before(
                                (#[trigger] last[i1]).0,
                                last[i1].1,
                                (#[trigger] last[i2]).0,
                                last[i2].1,
                            ),
                        forall|i: int, j: int, kk: int|
                            1 <= i < order@.len() && #[trigger] self.feeds(order@, j, kk, order@[i]) && lex_before(
                                j,
                                kk,
                                head as int,
                                k as int,
                            ) ==> !lex_before(last[i].0, last[i].1, j, kk),
                    decreases row@.len() - k,
                {
                    let v = row[k];
                    proof {
                        lemma_pending_done(rows, done, v, n as int, u as int);
                        lemma_count_take_step(row@, k as int, v);
                        lemma_count_prefix(row@, k + 1, v);
                        assert forall|i: int| 0 <= i < order@.len() implies order@[i] != v by {
                            assert(deg@[order@[i] as int] == 0);
                        }
                    }
                    deg.set(v, deg[v] - 1);
                    let ghost before = order@;
                    if deg[v] == 0 {
                        order.push(v);
                        proof {
                            last = last.push((head as int, k as int));
                            lemma_in_count_row(rows, u as int, v);
                            assert forall|i: int, j: int| 0 <= i < j < order@.len() implies order@[i] != order@[j] by {
                                if j < before.len() {
                                    assert(before[i] != before[j]);
                                }
                            }
                            assert forall|i: int| 0 <= i < order@.len() implies #[trigger] order@[i] < n by {
                                if i < before.len() {
                                    assert(before[i] < n);
                                }
                            }
                            lemma_distinct_len(order@, n as nat);
                        }
                    }
                    proof {
                        assert forall|w: int| 0 <= w < n && #[trigger] done[w] implies self.active(w) && exists|j: int|
                            0 <= j < head && order@[j] == w by {
                            let j = choose|j: int| 0 <= j < head && before[j] == w;
                            assert(order@[j] == w);
                        }
                        assert forall|x: usize| x < n && deg@[x as int] == 0 && in_count(rows, x) > 0 implies #[trigger] order@.contains(x) by {
                            if x != v {
                                assert(before.contains(x));
                                let i = choose|i: int| 0 <= i < before.len() && before[i] == x;
                                assert(order@[i] == x);
                            } else {
                                assert(order@[order@.len() - 1] == v);
                            }
                        }
                        assert forall|i: int, j: int, kk: int|
                            1 <= i < order@.len() && #[trigger] self.feeds(order@, j, kk, order@[i]) && lex_before(
                                j,
                                kk,
                                head as int,
                                k + 1,
                            ) implies !lex_before(last[i].0, last[i].1, j, kk) by {
                            if i < before.len() {
                                if j == head && kk == k {
                                    assert(rows[u as int][k as int] == v);
                                    assert(before[i] != v);
                                } else {
                                    assert(self.feeds(before, j, kk, before[i]));
                                }
                            }
                        }
                        assert forall|w: int| 0 <= w < n implies #[trigger] deg@[w] + count_of(row@.take(k + 1), w as usize)
                            == pending(rows, done, w as usize, n as int) by {
                            lemma_count_take_step(row@, k as int, w as usize);
                        }
                        assert forall|j: int, kk: int, x: usize| self.feeds(before, j, kk, x) implies #[trigger] self.feeds(order@, j, kk, x) by {}
                    }
                    k += 1;
                }
                proof {
                    let d2 = done.update(u as int, true);
                    assert(row@.take(row@.len() as int) =~= row@);
                    assert forall|v: int| 0 <= v < n implies #[trigger] deg@[v] == pending(rows, d2, v as usize, n as int) by {
                        lemma_pending_done(rows, done, v as usize, n as int, u as int);
                    }
                    assert forall|j: int| 0 <= j < head + 1 implies d2[#[trigger] order@[j] as int] == self.active(order@[j] as int) by {
                        if j < head {
                            assert(order@[j] != order@[head as int]);
                        }
                    }
                    assert forall|w: int| 0 <= w < n && #[trigger] d2[w] implies self.active(w) && exists|j: int|
                        0 <= j < head + 1 && order@[j] == w by {
                        if w != u {
                            let j = choose|j: int| 0 <= j < head && order@[j] == w;
                            assert(order@[j] == w);
                        } else {
                            assert(order@[head as int] == w);
                        }
                    }
                    done = d2;
                }
            } else {
                proof {
                    assert forall|w: int| 0 <= w < n && #[trigger] done[w] implies self.active(w) && exists|j: int|
                        0 <= j < head + 1 && order@[j] == w by {
                        let j = choose|j: int| 0 <= j < head && order@[j] == w;
                        assert(order@[j] == w);
                    }
                }
            }
            head += 1;
        }
        proof {
            let m = order@.len() as int;
            assert forall|i1: int, i2: int| 1 <= i1 < i2 < m implies self.fed_after(
                order@,
                #[trigger] order@[i1],
                #[trigger] order@[i2],
            ) by {
                let w = last[i2];
                assert(self.feeds(order@, w.0, w.1, order@[i2]));
                assert(lex_before(last[i1].0, last[i1].1, w.0, w.1));
                assert forall|j1: int, k1: int| #[trigger] self.feeds(order@, j1, k1, order@[i1]) implies lex_before(
                    j1,
                    k1,
                    w.0,
                    w.1,
                ) by {
                    assert(lex_before(j1, k1, head as int, 0));
                }
            }
            assert forall|i: int, j: int, k: int|
                0 <= i < m && #[trigger] self.feeds(order@, j, k, order@[i]) implies j < i by {
                let u = order@[j] as int;
                if i == 0 {
                    lemma_in_count_row(rows, u, self.seed_idx);
                    lemma_count_zero(rows[u], self.seed_idx);
                } else {
                    assert(lex_before(j, k, head as int, 0));
                }
            }
            assert forall|v: usize| v < n implies (#[trigger] order@.contains(v) <==> (v == self.seed_idx || (
            in_count(rows, v) > 0 && self.fed_fully(order@, v)))) by {
                lemma_pending_zero(rows, done, v, n as int);
                if order@.contains(v) {
                    let i = choose|i: int| 0 <= i < m && order@[i] == v;
                    if i >= 1 {
                        assert(deg@[v as int] == 0);
                        assert forall|u: int, k: int| is_entry(rows, u, k) && #[trigger] rows[u][k] == v implies self.active(
                            u,
                        ) && order@.contains(u as usize) by {
                            lemma_count_zero(rows[u], v);
                            assert(done[u]);
                            let j = choose|j: int| 0 <= j < head && order@[j] == u;
                            assert(order@[j] == u as usize);
                        }
                        assert(self.fed_fully(order@, v));
                    }
                } else if v != self.seed_idx && in_count(rows, v) > 0 && self.fed_fully(order@, v) {
                    assert forall|u: int| 0 <= u < n && !done[u] implies #[trigger] count_of(rows[u], v) == 0 by {
                        lemma_count_zero(rows[u], v);
                        assert forall|k: int| 0 <= k < rows[u].len() implies rows[u][k] != v by {
                            if rows[u][k] == v {
                                assert(is_entry(rows, u, k));
                                assert(order@.contains(u as usize));
                                let j = choose|j: int| 0 <= j < m && order@[j] == u as usize;
                                assert(done[order@[j] as int] == self.active(order@[j] as int));
                            }
                        }
                    }
                    assert(deg@[v as int] == 0);
                    assert(order@.contains(v));
                } else if v == self.seed_idx {
                    assert(order@[0] == v);
                }
            }
        }
        order
    }
}

impl BackwardPlan {
    /// Some slot before `(j0, k0)` in the run order `order` feeds `v`.
    pub open spec fn fed_before(&self, order: Seq<usize>, v: usize, j0: int, k0: int) -> bool {
        exists|j: int, k: int| #[trigger] self.feeds(order, j, k, v) && lex_before(j, k, j0, k0)
    }

    /// Which indices end up holding a gradient in the result of a pass run
    /// in `order`: the output, and every index that takes gradients and is
    /// fed by some slot; of those, every one when `retain_graph` is set and
    /// only the leaves otherwise.
    pub fn kept_gradients(&self, order: &Vec<usize>, retain_graph: bool) -> (keep: Vec<bool>)
        requires
            self.wf(),
            forall|i: int| 0 <= i < order@.len() ==> #[trigger] order@[i] < self.nodes@.len(),
        ensures
            keep@.len() == self.nodes@.len(),
            forall|v: int|
                0 <= v < self.nodes@.len() ==> #[trigger] keep@[v] == ((retain_graph || self.is_leaf@[v]) && (v
                    == self.seed_idx || (self.requires_grad@[v] && exists|j: int, k: int|
                    #[trigger] self.feeds(order@, j, k, v as usize)))),
    {
        let n = self.nodes.len();
        let ghost rows = self.rows();
        let mut received: Vec<bool> = Vec::new();
        let mut i: usize = 0;
        while i < n
            invariant
                i <= n,
                n == self.nodes@.len(),
                self.seed_idx < n,
                received@.len() == i,
                forall|v: int| 0 <= v < i ==> #[trigger] received@[v] == (v == self.seed_idx),
            decreases n - i,
        {
            received.push(i == self.seed_idx);
            i += 1;
        }
        let mut jj: usize = 0;
        while jj < order.len()
            invariant
                self.wf(),
                rows == self.rows(),
                n == self.nodes@.len(),
                jj <= order@.len(),
                forall|i: int| 0 <= i < order@.len() ==> #[trigger] order@[i] < n,
                received@.len() == n,
                forall|v: int|
                    0 <= v < n ==> #[trigger] received@[v] == (v == self.seed_idx || (self.requires_grad@[v]
                        && self.fed_before(order@, v as usize, jj as int, 0))),
            decreases order@.len() - jj,
        {
            let u = order[jj];
            if self.requires_grad[u] && self.has_rule[u] {
                let row = &self.operands[u];
                let mut k: usize = 0;
                while k < row.len()
                    invariant
                        self.wf(),
                        rows == self.rows(),
                        n == self.nodes@.len(),
                        jj < order@.len(),
                        u == order@[jj as int],
                        u < n,
                        self.active(u as int),
                        row@ == rows[u as int],
                        k <= row@.len(),
                        received@.len() == n,
                        forall|v: int|
                            0 <= v < n ==> #[trigger] received@[v] == (v == self.seed_idx || (self.requires_grad@[v]
                                && self.fed_before(order@, v as usize, jj as int, k as int))),
                    decreases row@.len() - k,
                {
                    let v = row[k];
                    if self.requires_grad[v] {
                        received.set(v, true);
                    }
                    proof {
                        assert(self.feeds(order@, jj as int, k as int, v));
                        assert forall|w: int| 0 <= w < n implies #[trigger] received@[w] == (w == self.seed_idx || (
                        self.requires_grad@[w] && self.fed_before(order@, w as usize, jj as int, k + 1))) by {
                            if self.fed_before(order@, w as usize, jj as int, k + 1) && w != v {
                                let (j1, k1) = choose|j1: int, k1: int| #[trigger] self.feeds(order@, j1, k1, w as usize)
                                    && lex_before(j1, k1, jj as int, k + 1);
                                assert(lex_before(j1, k1, jj as int, k as int));
                            }
                        }
                    }
                    k += 1;
                }
                proof {
                    assert forall|w: int| 0 <= w < n implies #[trigger] received@[w] == (w == self.seed_idx || (
                    self.requires_grad@[w] && self.fed_before(order@, w as usize, jj + 1, 0))) by {
                        if self.fed_before(order@, w as usize, jj + 1, 0) {
                            let (j1, k1) = choose|j1: int, k1: int| #[trigger] self.feeds(order@, j1, k1, w as usize)
                                && lex_before(j1, k1, jj + 1, 0);
                            assert(lex_before(j1, k1, jj as int, row@.len() as int));
                        }
                        if self.fed_before(order@, w as usize, jj as int, row@.len() as int) {
                            let (j1, k1) = choose|j1: int, k1: int| #[trigger] self.feeds(order@, j1, k1, w as usize)
                                && lex_before(j1, k1, jj as int, row@.len() as int);
                            assert(lex_before(j1, k1, jj + 1, 0));
                        }
                    }
                }
            } else {
                proof {
                    assert forall|w: int| 0 <= w < n implies #[trigger] received@[w] == (w == self.seed_idx || (
                    self.requires_grad@[w] && self.fed_before(order@, w as usize, jj + 1, 0))) by {
                        if self.fed_before(order@, w as usize, jj + 1, 0) {
                            let (j1, k1) = choose|j1: int, k1: int| #[trigger] self.feeds(order@, j1, k1, w as usize)
                                && lex_before(j1, k1, jj + 1, 0);
                            assert(j1 != jj);
                            assert(lex_before(j1, k1, jj as int, 0));
                        }
                    }
                }
            }
            jj += 1;
        }
        let mut keep: Vec<bool> = Vec::new();
        let mut t: usize = 0;
        while t < n
            invariant
                self.wf(),
                n == self.nodes@.len(),
                t <= n,
                received@.len() == n,
                keep@.len() == t,
                forall|v: int|
                    0 <= v < n ==> #[trigger] received@[v] == (v == self.seed_idx || (self.requires_grad@[v]
                        && self.fed_before(order@, v as usize, order@.len() as int, 0))),
                forall|v: int|
                    0 <= v < t ==> #[trigger] keep@[v] == ((retain_graph || self.is_leaf@[v]) && received@[v]),
            decreases n - t,
        {
            keep.push((retain_graph || self.is_leaf[t]) && received[t]);
            t += 1;
        }
        proof {
            assert forall|v: int| 0 <= v < n implies #[trigger] keep@[v] == ((retain_graph || self.is_leaf@[v]) && (v
                == self.seed_idx || (self.requires_grad@[v] && exists|j: int, k: int|
                #[trigger] self.feeds(order@, j, k, v as usize)))) by {
                if exists|j: int, k: int| #[trigger] self.feeds(order@, j, k, v as usize) {
                    let (j1, k1) = choose|j1: int, k1: int| #[trigger] self.feeds(order@, j1, k1, v as usize);
                    assert(lex_before(j1, k1, order@.len() as int, 0));
                }
            }
        }
        keep
    }
}

} // verus!
