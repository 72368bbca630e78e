//! State elimination: folding self-loops, removing interior nodes, and
//! reducing the whole graph to one regular expression.
//!
//! Every function is pinned to a spec-level model of the same
//! transformation, so the exact resulting graph, arena and expression are
//! part of the contract, including exactly which inputs are refused.

use vstd::prelude::*;

use crate::ast::Expr;
use crate::ast::RegexNode;
use crate::graph::arena_cell_ok;
use crate::graph::arena_ok;
use crate::graph::find_node;
use crate::graph::has_edge;
use crate::graph::ids_distinct;
use crate::graph::idx_of;
use crate::graph::in_mirror_ok;
use crate::graph::lemma_idx_of;
use crate::graph::out_mirror_ok;
use crate::graph::wf;
use crate::graph::node_views;
use crate::graph::remove_matching;
use crate::graph::vec_has_edge;
use crate::graph::vec_remove_matching;
use crate::graph::Edge;
use crate::graph::Graph;
use crate::graph::GraphError;
use crate::graph::GraphV;
use crate::graph::Node;
use crate::graph::NodeV;
use crate::graph::END_ID;
use crate::graph::START_ID;

verus! {

/// Labels of the self-loop edges (far end `id`) in an edge list, in list
/// order.
pub open spec fn loop_labels(es: Seq<Edge>, id: u32) -> Seq<usize>
    decreases es.len(),
{
    if es.len() == 0 {
        Seq::empty()
    } else {
        let r = loop_labels(es.drop_last(), id);
        if es.last().other == id {
            r.push(es.last().label)
        } else {
            r
        }
    }
}

/// The edge list without its self-loop entries, order of the rest
/// preserved.
pub open spec fn sans_loops(es: Seq<Edge>, id: u32) -> Seq<Edge>
    decreases es.len(),
{
    if es.len() == 0 {
        Seq::empty()
    } else {
        let r = sans_loops(es.drop_last(), id);
        if es.last().other == id {
            r
        } else {
            r.push(es.last())
        }
    }
}

/// Every self-loop occurrence in either adjacency list of `n` has a
/// matching occurrence in the other list.
pub open spec fn loops_matched(n: NodeV) -> bool {
    &&& forall|k: int|
        0 <= k < n.outs.len() && (#[trigger] n.outs[k]).other == n.id ==> has_edge(
            n.ins,
            n.outs[k].label,
            n.id,
        )
    &&& forall|k: int|
        0 <= k < n.ins.len() && (#[trigger] n.ins[k]).other == n.id ==> has_edge(
            n.outs,
            n.ins[k].label,
            n.id,
        )
}

/// Left fold of labels with `Alt`: appends one `Alt` cell per step to the
/// arena and returns the new arena with the index of the folded
/// expression.  Meaningful only for a non-empty label list.
pub open spec fn fold_alt(a: Seq<RegexNode>, labels: Seq<usize>) -> (Seq<RegexNode>, usize)
    recommends
        labels.len() >= 1,
    decreases labels.len(),
{
    if labels.len() <= 1 {
        (a, labels[0])
    } else {
        let (a1, acc) = fold_alt(a, labels.drop_last());
        (a1.push(RegexNode::Alt(acc, labels.last())), a1.len() as usize)
    }
}

/// Effect of extracting the self-loops of `n`: the star index if there
/// were any loops, the node without its loops, and the grown arena.
pub open spec fn loop_star(n: NodeV, a: Seq<RegexNode>) -> (Option<usize>, NodeV, Seq<RegexNode>) {
    let ls = loop_labels(n.outs, n.id);
    let n2 = NodeV { ins: sans_loops(n.ins, n.id), outs: sans_loops(n.outs, n.id), ..n };
    if ls.len() == 0 {
        (Option::None, n2, a)
    } else {
        let (a1, acc) = fold_alt(a, ls);
        (Option::Some(a1.len() as usize), n2, a1.push(RegexNode::Star(acc)))
    }
}

/// What `self_loop` does: with mirrored loops, exactly the `loop_star`
/// transformation; otherwise the node is inconsistent and nothing
/// changes.
pub open spec fn self_loop_model(n: NodeV, a: Seq<RegexNode>) -> Result<
    (Option<usize>, NodeV, Seq<RegexNode>),
    GraphError,
> {
    if loops_matched(n) {
        Result::Ok(loop_star(n, a))
    } else {
        Result::Err(GraphError::Inconsistent)
    }
}

/// Decides whether the self-loops of `node` are mirrored in both
/// adjacency lists.
fn check_loops_matched(node: &Node) -> (b: bool)
    ensures
        b == loops_matched(node@),
{
    let id = node.id;
    let ghost nv = node@;
    proof {
        assert(nv.id == id);
        assert(nv.outs == node.out_edges@);
        assert(nv.ins == node.in_edges@);
    }
    let n_out = node.out_edges.len();
    let mut k: usize = 0;
    while k < n_out
        invariant
            k <= n_out,
            nv == node@,
            nv.id == id,
            nv.outs == node.out_edges@,
            nv.ins == node.in_edges@,
            n_out == nv.outs.len(),
            forall|j: int|
                0 <= j < k && (#[trigger] nv.outs[j]).other == id ==> has_edge(
                    nv.ins,
                    nv.outs[j].label,
                    id,
                ),
        decreases n_out - k,
    {
        let e = node.out_edges[k];
        proof {
            assert(nv.outs[k as int] == e);
        }
        if e.other == id {
            if !vec_has_edge(&node.in_edges, e.label, id) {
                proof {
                    assert(!has_edge(nv.ins, nv.outs[k as int].label, id));
                    assert(!loops_matched(nv));
                }
                return false;
            }
        }
        k = k + 1;
    }
    let n_in = node.in_edges.len();
    let mut k2: usize = 0;
    while k2 < n_in
        invariant
            nv == node@,
            nv.id == id,
            nv.outs == node.out_edges@,
            nv.ins == node.in_edges@,
            n_out == nv.outs.len(),
            forall|j: int|
                0 <= j < n_out && (#[trigger] nv.outs[j]).other == id ==> has_edge(
                    nv.ins,
                    nv.outs[j].label,
                    id,
                ),
            k2 <= n_in,
            n_in == nv.ins.len(),
            forall|j: int|
                0 <= j < k2 && (#[trigger] nv.ins[j]).other == id ==> has_edge(
                    nv.outs,
                    nv.ins[j].label,
                    id,
                ),
        decreases n_in - k2,
    {
        let e = node.in_edges[k2];
        proof {
            assert(nv.ins[k2 as int] == e);
        }
        if e.other == id {
            if !vec_has_edge(&node.out_edges, e.label, id) {
                proof {
                    assert(!has_edge(nv.outs, nv.ins[k2 as int].label, id));
                    assert(!loops_matched(nv));
                }
                return false;
            }
        }
        k2 = k2 + 1;
    }
    true
}

/// Builds the edge list without its self-loop entries.
fn vec_sans_loops(es: &Vec<Edge>, id: u32) -> (r: Vec<Edge>)
    ensures
        r@ == sans_loops(es@, id),
{
    let n = es.len();
    let mut r: Vec<Edge> = Vec::new();
    let mut k: usize = 0;
    while k < n
        invariant
            k <= n,
            n == es@.len(),
            r@ == sans_loops(es@.take(k as int), id),
        decreases n - k,
    {
        let e = es[k];
        proof {
            assert(es@.take(k + 1 as int).drop_last() =~= es@.take(k as int));
            assert(es@.take(k + 1 as int).last() == es@[k as int]);
        }
        if e.other != id {
            r.push(e);
        }
        k = k + 1;
    }
    proof {
        assert(es@.take(n as int) =~= es@);
    }
    r
}

/// Extracts every self-loop of `node`: removes each loop occurrence from
/// both adjacency lists, and folds the loop labels, in discovery order,
/// into one starred alternation appended to the arena.  Returns `None`
/// if the node had no self-loops.  If a loop occurrence lacks its mirror
/// occurrence the graph is inconsistent: nothing is changed and the
/// inconsistency is reported.
pub fn self_loop(node: &mut Node, exprs: &mut Vec<RegexNode>) -> (r: Result<
    Option<usize>,
    GraphError,
>)
    ensures
        (match self_loop_model(old(node)@, old(exprs)@) {
            Result::Ok((lp, n2, a2)) => r == Result::Ok::<Option<usize>, GraphError>(lp)
                && final(node)@ == n2 && final(exprs)@ == a2,
            Result::Err(e) => r == Result::Err::<Option<usize>, GraphError>(e) && final(node)@
                == old(node)@ && final(exprs)@ == old(exprs)@,
        }),
{
    if !check_loops_matched(node) {
        return Result::Err(GraphError::Inconsistent);
    }
    let id = node.id;
    let ghost n0 = node@;
    let ghost a0 = exprs@;
    // Collect the loop labels in discovery order.
    let n_out = node.out_edges.len();
    let mut labels: Vec<usize> = Vec::new();
    let mut k: usize = 0;
    while k < n_out
        invariant
            k <= n_out,
            n_out == node.out_edges@.len(),
            id == node@.id,
            labels@ == loop_labels(node.out_edges@.take(k as int), id),
        decreases n_out - k,
    {
        let e = node.out_edges[k];
        proof {
            assert(node.out_edges@.take(k + 1 as int).drop_last() =~= node.out_edges@.take(
                k as int,
            ));
            assert(node.out_edges@.take(k + 1 as int).last() == node.out_edges@[k as int]);
        }
        if e.other == id {
            labels.push(e.label);
        }
        k = k + 1;
    }
    proof {
        assert(node.out_edges@.take(n_out as int) =~= node.out_edges@);
    }
    // Remove the loop occurrences from both lists.
    let new_outs = vec_sans_loops(&node.out_edges, id);
    let new_ins = vec_sans_loops(&node.in_edges, id);
    node.out_edges = new_outs;
    node.in_edges = new_ins;
    proof {
        assert(node@ =~~= (NodeV {
            ins: sans_loops(n0.ins, n0.id),
            outs: sans_loops(n0.outs, n0.id),
            ..n0
        }));
    }
    if labels.len() == 0 {
        return Result::Ok(Option::None);
    }
    // Fold the labels with Alt, left to right.
    let n_lab = labels.len();
    let mut acc: usize = labels[0];
    let mut k2: usize = 1;
    while k2 < n_lab
        invariant
            1 <= k2 <= n_lab,
            n_lab == labels@.len(),
            (exprs@, acc) == fold_alt(a0, labels@.take(k2 as int)),
        decreases n_lab - k2,
    {
        proof {
            assert(labels@.take(k2 + 1 as int).drop_last() =~= labels@.take(k2 as int));
            assert(labels@.take(k2 + 1 as int).last() == labels@[k2 as int]);
        }
        let idx = exprs.len();
        exprs.push(RegexNode::Alt(acc, labels[k2]));
        acc = idx;
        k2 = k2 + 1;
    }
    proof {
        assert(labels@.take(n_lab as int) =~= labels@);
    }
    let star = exprs.len();
    exprs.push(RegexNode::Star(acc));
    Result::Ok(Option::Some(star))
}

} // verus!

verus! {

/// Whether the neighbours of the node `n` (about to be eliminated, and
/// already taken out of `ns`) hold the mirror occurrences of its
/// non-loop edges.
pub open spec fn removal_consistent(ns: Seq<NodeV>, n: NodeV, id: u32) -> bool {
    &&& forall|k: int|
        0 <= k < n.ins.len() && (#[trigger] n.ins[k]).other != id ==> {
            let j = idx_of(ns, n.ins[k].other);
            j >= 0 && has_edge(ns[j].outs, n.ins[k].label, id)
        }
    &&& forall|k: int|
        0 <= k < n.outs.len() && (#[trigger] n.outs[k]).other != id ==> {
            let j = idx_of(ns, n.outs[k].other);
            j >= 0 && has_edge(ns[j].ins, n.outs[k].label, id)
        }
}

/// Removes the mirror of one out-edge of the eliminated node from its
/// target's in-edges.
pub open spec fn drop_in_mirror(ns: Seq<NodeV>, e: Edge, id: u32) -> Seq<NodeV> {
    let j = idx_of(ns, e.other);
    if j < 0 {
        ns
    } else {
        ns.update(j, NodeV { ins: remove_matching(ns[j].ins, e.label, id), ..ns[j] })
    }
}

/// First phase of elimination: for each out-edge of the eliminated node,
/// in order, removes its mirror from the target's in-edges.
pub open spec fn phase_a(ns: Seq<NodeV>, outs: Seq<Edge>, id: u32) -> Seq<NodeV>
    decreases outs.len(),
{
    if outs.len() == 0 {
        ns
    } else {
        drop_in_mirror(phase_a(ns, outs.drop_last(), id), outs.last(), id)
    }
}

/// Appends the merged label - `Concat(A, B)`, or `Concat(Concat(A, L), B)`
/// through a loop star `L` - to the arena; returns the new arena and the
/// label's index.
pub open spec fn merge_label(a: Seq<RegexNode>, la: usize, lp: Option<usize>, lb: usize) -> (
    Seq<RegexNode>,
    usize,
) {
    match lp {
        Option::None => (a.push(RegexNode::Concat(la, lb)), a.len() as usize),
        Option::Some(l) => {
            let a1 = a.push(RegexNode::Concat(la, l));
            (a1.push(RegexNode::Concat(a.len() as usize, lb)), a1.len() as usize)
        },
    }
}

/// Adds one merged edge `p -> s` for the pair of an in-edge `ea` (from
/// `p`) and an out-edge `eb` (to `s`) of the eliminated node.
pub open spec fn add_pair(
    ns: Seq<NodeV>,
    a: Seq<RegexNode>,
    ea: Edge,
    lp: Option<usize>,
    eb: Edge,
) -> (Seq<NodeV>, Seq<RegexNode>) {
    let (a1, m) = merge_label(a, ea.label, lp, eb.label);
    let jp = idx_of(ns, ea.other);
    let ns1 = if jp < 0 {
        ns
    } else {
        ns.update(jp, NodeV { outs: ns[jp].outs.push(Edge { label: m, other: eb.other }), ..ns[jp] })
    };
    let js = idx_of(ns1, eb.other);
    let ns2 = if js < 0 {
        ns1
    } else {
        ns1.update(
            js,
            NodeV { ins: ns1[js].ins.push(Edge { label: m, other: ea.other }), ..ns1[js] },
        )
    };
    (ns2, a1)
}

/// Adds the merged edges for one in-edge `ea` paired with every out-edge
/// in `outs`, in order.
pub open spec fn add_pairs(
    ns: Seq<NodeV>,
    a: Seq<RegexNode>,
    ea: Edge,
    lp: Option<usize>,
    outs: Seq<Edge>,
) -> (Seq<NodeV>, Seq<RegexNode>)
    decreases outs.len(),
{
    if outs.len() == 0 {
        (ns, a)
    } else {
        let (ns1, a1) = add_pairs(ns, a, ea, lp, outs.drop_last());
        add_pair(ns1, a1, ea, lp, outs.last())
    }
}

/// Processes one in-edge `(A, p)`: removes A's mirror from p's
/// out-edges, then adds the merged edge for every out-edge pair.
pub open spec fn elim_pred(
    ns: Seq<NodeV>,
    a: Seq<RegexNode>,
    ea: Edge,
    lp: Option<usize>,
    outs: Seq<Edge>,
    id: u32,
) -> (Seq<NodeV>, Seq<RegexNode>) {
    let jp = idx_of(ns, ea.other);
    let ns1 = if jp < 0 {
        ns
    } else {
        ns.update(jp, NodeV { outs: remove_matching(ns[jp].outs, ea.label, id), ..ns[jp] })
    };
    add_pairs(ns1, a, ea, lp, outs)
}

/// Second phase of elimination: processes every in-edge in order.
pub open spec fn phase_b(
    ns: Seq<NodeV>,
    a: Seq<RegexNode>,
    ins: Seq<Edge>,
    lp: Option<usize>,
    outs: Seq<Edge>,
    id: u32,
) -> (Seq<NodeV>, Seq<RegexNode>)
    decreases ins.len(),
{
    if ins.len() == 0 {
        (ns, a)
    } else {
        let (ns1, a1) = phase_b(ns, a, ins.drop_last(), lp, outs, id);
        elim_pred(ns1, a1, ins.last(), lp, outs, id)
    }
}

/// The whole elimination of the interior node `id`: its self-loops are
/// folded into a star, the node is taken out, every neighbour loses the
/// mirror occurrences of the node's edges, and every predecessor /
/// successor pair gains one merged edge.
pub open spec fn remove_node_model(g: GraphV, id: u32) -> Result<GraphV, GraphError> {
    if id == START_ID || id == END_ID {
        Result::Err(GraphError::NotInterior)
    } else {
        let j = idx_of(g.nodes, id);
        if j < 0 {
            Result::Err(GraphError::NodeNotFound)
        } else {
            let n = g.nodes[j];
            if !loops_matched(n) {
                Result::Err(GraphError::Inconsistent)
            } else {
                let ns0 = g.nodes.remove(j);
                let (lp, n2, a2) = loop_star(n, g.exprs);
                if !removal_consistent(ns0, n2, id) {
                    Result::Err(GraphError::Inconsistent)
                } else {
                    let ns1 = phase_a(ns0, n2.outs, id);
                    let (ns2, a3) = phase_b(ns1, a2, n2.ins, lp, n2.outs, id);
                    Result::Ok(GraphV { nodes: ns2, exprs: a3 })
                }
            }
        }
    }
}

/// `fold_alt` only appends to the arena.
pub proof fn lemma_fold_alt_prefix(a: Seq<RegexNode>, labels: Seq<usize>)
    ensures
        fold_alt(a, labels).0.len() >= a.len(),
        forall|i: int| 0 <= i < a.len() ==> fold_alt(a, labels).0[i] == a[i],
    decreases labels.len(),
{
    if labels.len() > 1 {
        lemma_fold_alt_prefix(a, labels.drop_last());
    }
}

/// Copies an edge list.
fn copy_edges(es: &Vec<Edge>) -> (r: Vec<Edge>)
    ensures
        r@ == es@,
{
    let n = es.len();
    let mut r: Vec<Edge> = Vec::new();
    let mut k: usize = 0;
    while k < n
        invariant
            k <= n,
            n == es@.len(),
            r@ == es@.take(k as int),
        decreases n - k,
    {
        r.push(es[k]);
        proof {
            assert(r@ =~= es@.take(k + 1 as int));
        }
        k = k + 1;
    }
    proof {
        assert(es@.take(n as int) =~= es@);
    }
    r
}

/// Decides `removal_consistent` for the (already loop-free) node `n`
/// against the remaining nodes.
fn check_removal_consistent(nodes: &Vec<Node>, node: &Node, id: u32) -> (b: bool)
    ensures
        b == removal_consistent(node_views(nodes@), node@, id),
{
    let ghost ns = node_views(nodes@);
    let ghost nv = node@;
    let n_in = node.in_edges.len();
    let mut k: usize = 0;
    while k < n_in
        invariant
            k <= n_in,
            ns == node_views(nodes@),
            nv == node@,
            n_in == nv.ins.len(),
            forall|j: int|
                0 <= j < k && (#[trigger] nv.ins[j]).other != id ==> idx_of(ns, nv.ins[j].other)
                    >= 0 && has_edge(ns[idx_of(ns, nv.ins[j].other)].outs, nv.ins[j].label, id),
        decreases n_in - k,
    {
        let e = node.in_edges[k];
        proof {
            assert(nv.ins[k as int] == e);
        }
        if e.other != id {
            match find_node(nodes, e.other) {
                Option::None => {
                    return false;
                },
                Option::Some(j) => {
                    if !vec_has_edge(&nodes[j].out_edges, e.label, id) {
                        proof {
                            assert(ns[j as int] == nodes@[j as int]@);
                        }
                        return false;
                    }
                    proof {
                        assert(ns[j as int] == nodes@[j as int]@);
                    }
                },
            }
        }
        k = k + 1;
    }
    let n_out = node.out_edges.len();
    let mut k2: usize = 0;
    while k2 < n_out
        invariant
            ns == node_views(nodes@),
            nv == node@,
            n_in == nv.ins.len(),
            forall|j: int|
                0 <= j < n_in && (#[trigger] nv.ins[j]).other != id ==> idx_of(ns, nv.ins[j].other)
                    >= 0 && has_edge(ns[idx_of(ns, nv.ins[j].other)].outs, nv.ins[j].label, id),
            k2 <= n_out,
            n_out == nv.outs.len(),
            forall|j: int|
                0 <= j < k2 && (#[trigger] nv.outs[j]).other != id ==> idx_of(ns, nv.outs[j].other)
                    >= 0 && has_edge(ns[idx_of(ns, nv.outs[j].other)].ins, nv.outs[j].label, id),
        decreases n_out - k2,
    {
        let e = node.out_edges[k2];
        proof {
            assert(nv.outs[k2 as int] == e);
        }
        if e.other != id {
            match find_node(nodes, e.other) {
                Option::None => {
                    return false;
                },
                Option::Some(j) => {
                    if !vec_has_edge(&nodes[j].in_edges, e.label, id) {
                        proof {
                            assert(ns[j as int] == nodes@[j as int]@);
                        }
                        return false;
                    }
                    proof {
                        assert(ns[j as int] == nodes@[j as int]@);
                    }
                },
            }
        }
        k2 = k2 + 1;
    }
    true
}

/// Removes the interior node `node_id` from the graph, rewiring every
/// predecessor / successor pair through a merged edge labelled
/// `Concat(A, B)`, or `Concat(Concat(A, L), B)` when the node carried
/// self-loops folded into the star `L`.  Parallel edges are preserved:
/// every pair yields its own new edge.  A missing mirror occurrence
/// anywhere is an invariant violation: the graph is left unchanged and
/// the inconsistency reported.
pub fn remove_node(node_id: u32, graph: &mut Graph) -> (r: Result<(), GraphError>)
    ensures
        (match remove_node_model(old(graph)@, node_id) {
            Result::Ok(gv) => r == Result::Ok::<(), GraphError>(()) && final(graph)@ == gv,
            Result::Err(e) => r == Result::Err::<(), GraphError>(e) && final(graph)@ == old(
                graph,
            )@,
        }),
{
    if node_id == START_ID || node_id == END_ID {
        return Result::Err(GraphError::NotInterior);
    }
    let ghost g0 = graph@;
    let j = match graph.position_of(node_id) {
        Option::None => {
            return Result::Err(GraphError::NodeNotFound);
        },
        Option::Some(j) => j,
    };
    if !check_loops_matched(&graph.nodes[j]) {
        proof {
            assert(graph@.nodes[j as int] == graph.nodes@[j as int]@);
        }
        return Result::Err(GraphError::Inconsistent);
    }
    proof {
        assert(graph@.nodes[j as int] == graph.nodes@[j as int]@);
    }
    let mut node = match graph.take_node(node_id) {
        Result::Err(_) => {
            proof {
                assert(false);
            }
            return Result::Err(GraphError::NodeNotFound);
        },
        Result::Ok(n) => n,
    };
    let ghost n_raw = node@;
    let ghost ns0 = graph@.nodes;
    // Keep the original adjacency lists so that a failed consistency
    // check can put the graph back exactly as it was.
    let saved_ins = copy_edges(&node.in_edges);
    let saved_outs = copy_edges(&node.out_edges);
    let arena_len = graph.exprs.len();
    // Fold the self-loops first; the node is already out of the graph.
    let lp = match self_loop(&mut node, &mut graph.exprs) {
        Result::Err(_) => {
            proof {
                assert(false);
            }
            return Result::Err(GraphError::Inconsistent);
        },
        Result::Ok(lp) => lp,
    };
    let ghost a2 = graph@.exprs;
    proof {
        assert(node@ == loop_star(n_raw, g0.exprs).1);
        assert(lp == loop_star(n_raw, g0.exprs).0);
        assert(a2 == loop_star(n_raw, g0.exprs).2);
    }
    if !check_removal_consistent(&graph.nodes, &node, node_id) {
        // Restore: the loop extraction only touched the taken-out node
        // and appended to the arena; put the original node back and cut
        // the arena to its old length.
        node.in_edges = saved_ins;
        node.out_edges = saved_outs;
        graph.exprs.truncate(arena_len);
        graph.put_node(j, node);
        proof {
            lemma_fold_alt_prefix(g0.exprs, loop_labels(n_raw.outs, n_raw.id));
            assert(graph@.exprs =~= g0.exprs);
            assert(node_views(graph.nodes@)[j as int] =~~= n_raw);
            assert(graph@.nodes =~~= ns0.insert(j as int, n_raw));
            assert(ns0.insert(j as int, n_raw) =~~= g0.nodes);
            assert(graph@ =~~= g0);
        }
        return Result::Err(GraphError::Inconsistent);
    }
    // Phase A: strip the mirrors of the node's out-edges from their
    // targets' in-edge lists.
    let n_out = node.out_edges.len();
    let mut k: usize = 0;
    while k < n_out
        invariant
            k <= n_out,
            n_out == node.out_edges@.len(),
            node_views(graph.nodes@) == phase_a(ns0, node.out_edges@.take(k as int), node_id),
            graph@.exprs == a2,
        decreases n_out - k,
    {
        let e = node.out_edges[k];
        proof {
            assert(node.out_edges@.take(k + 1 as int).drop_last() =~= node.out_edges@.take(
                k as int,
            ));
            assert(node.out_edges@.take(k + 1 as int).last() == e);
        }
        match find_node(&graph.nodes, e.other) {
            Option::None => (),
            Option::Some(j2) => {
                let ni = vec_remove_matching(&graph.nodes[j2].in_edges, e.label, node_id);
                proof {
                    assert(node_views(graph.nodes@)[j2 as int] == graph.nodes@[j2 as int]@);
                }
                graph.set_ins_at(j2, ni);
            },
        }
        proof {
            assert(node_views(graph.nodes@) =~~= phase_a(
                ns0,
                node.out_edges@.take(k + 1 as int),
                node_id,
            ));
        }
        k = k + 1;
    }
    proof {
        assert(node.out_edges@.take(n_out as int) =~= node.out_edges@);
    }
    // Phase B: for every in-edge, strip its mirror from the
    // predecessor's out-edges, then add one merged edge per out-edge.
    let ghost ns1 = node_views(graph.nodes@);
    let n_in = node.in_edges.len();
    let mut k1: usize = 0;
    while k1 < n_in
        invariant
            k1 <= n_in,
            n_in == node.in_edges@.len(),
            n_out == node.out_edges@.len(),
            (node_views(graph.nodes@), graph@.exprs) == phase_b(
                ns1,
                a2,
                node.in_edges@.take(k1 as int),
                lp,
                node.out_edges@,
                node_id,
            ),
        decreases n_in - k1,
    {
        let ea = node.in_edges[k1];
        proof {
            assert(node.in_edges@.take(k1 + 1 as int).drop_last() =~= node.in_edges@.take(
                k1 as int,
            ));
            assert(node.in_edges@.take(k1 + 1 as int).last() == ea);
        }
        let ghost ns_b = node_views(graph.nodes@);
        let ghost a_b = graph@.exprs;
        match find_node(&graph.nodes, ea.other) {
            Option::None => (),
            Option::Some(jp) => {
                let no = vec_remove_matching(&graph.nodes[jp].out_edges, ea.label, node_id);
                proof {
                    assert(node_views(graph.nodes@)[jp as int] == graph.nodes@[jp as int]@);
                }
                graph.set_outs_at(jp, no);
            },
        }
        let ghost ns_c = node_views(graph.nodes@);
        proof {
            assert(ns_c =~~= {
                let jp = idx_of(ns_b, ea.other);
                if jp < 0 {
                    ns_b
                } else {
                    ns_b.update(
                        jp,
                        NodeV {
                            outs: remove_matching(ns_b[jp].outs, ea.label, node_id),
                            ..ns_b[jp]
                        },
                    )
                }
            });
        }
        // Cross product with the out-edges.
        let mut k2: usize = 0;
        while k2 < n_out
            invariant
                k2 <= n_out,
                n_out == node.out_edges@.len(),
                (node_views(graph.nodes@), graph@.exprs) == add_pairs(
                    ns_c,
                    a_b,
                    ea,
                    lp,
                    node.out_edges@.take(k2 as int),
                ),
            decreases n_out - k2,
        {
            let eb = node.out_edges[k2];
            proof {
                assert(node.out_edges@.take(k2 + 1 as int).drop_last() =~= node.out_edges@.take(
                    k2 as int,
                ));
                assert(node.out_edges@.take(k2 + 1 as int).last() == eb);
            }
            // Build the merged label in the arena.
            let m: usize;
            match lp {
                Option::None => {
                    m = graph.exprs.len();
                    graph.exprs.push(RegexNode::Concat(ea.label, eb.label));
                },
                Option::Some(l) => {
                    let c1 = graph.exprs.len();
                    graph.exprs.push(RegexNode::Concat(ea.label, l));
                    m = graph.exprs.len();
                    graph.exprs.push(RegexNode::Concat(c1, eb.label));
                },
            }
            // Record the new edge at the predecessor ...
            match find_node(&graph.nodes, ea.other) {
                Option::None => (),
                Option::Some(jp2) => {
                    graph.push_out_at(jp2, Edge { label: m, other: eb.other });
                },
            }
            // ... and at the successor.
            match find_node(&graph.nodes, eb.other) {
                Option::None => (),
                Option::Some(js) => {
                    graph.push_in_at(js, Edge { label: m, other: ea.other });
                },
            }
            proof {
                assert((node_views(graph.nodes@), graph@.exprs) =~~= add_pairs(
                    ns_c,
                    a_b,
                    ea,
                    lp,
                    node.out_edges@.take(k2 + 1 as int),
                ));
            }
            k2 = k2 + 1;
        }
        proof {
            assert(node.out_edges@.take(n_out as int) =~= node.out_edges@);
            assert((node_views(graph.nodes@), graph@.exprs) =~~= phase_b(
                ns1,
                a2,
                node.in_edges@.take(k1 + 1 as int),
                lp,
                node.out_edges@,
                node_id,
            ));
        }
        k1 = k1 + 1;
    }
    proof {
        assert(node.in_edges@.take(n_in as int) =~= node.in_edges@);
        assert(graph@ =~~= remove_node_model(g0, node_id)->Ok_0);
    }
    Result::Ok(())
}

} // verus!

verus! {

/// Ids of the interior nodes (neither start nor end), in node order.
pub open spec fn interior_ids(ns: Seq<NodeV>) -> Seq<u32>
    decreases ns.len(),
{
    if ns.len() == 0 {
        Seq::empty()
    } else {
        let r = interior_ids(ns.drop_last());
        if ns.last().id == START_ID || ns.last().id == END_ID {
            r
        } else {
            r.push(ns.last().id)
        }
    }
}

/// Eliminates the listed node ids in order; the first error stops the
/// fold.
pub open spec fn elim_all(g: GraphV, ids: Seq<u32>) -> Result<GraphV, GraphError>
    decreases ids.len(),
{
    if ids.len() == 0 {
        Result::Ok(g)
    } else {
        match elim_all(g, ids.drop_last()) {
            Result::Err(e) => Result::Err(e),
            Result::Ok(g1) => remove_node_model(g1, ids.last()),
        }
    }
}

/// Once the fold has failed on a prefix, the whole fold fails the same
/// way.
pub proof fn lemma_elim_prefix_err(g: GraphV, ids: Seq<u32>, k: int)
    requires
        0 <= k <= ids.len(),
        elim_all(g, ids.take(k)) is Err,
    ensures
        elim_all(g, ids) == elim_all(g, ids.take(k)),
    decreases ids.len() - k,
{
    if k == ids.len() {
        assert(ids.take(k) =~= ids);
    } else {
        assert(ids.take(k + 1).drop_last() =~= ids.take(k));
        assert(elim_all(g, ids.take(k + 1)) == elim_all(g, ids.take(k)));
        lemma_elim_prefix_err(g, ids, k + 1);
    }
}

/// Labels of an edge list, in order.
pub open spec fn labels_of(es: Seq<Edge>) -> Seq<usize> {
    es.map_values(|e: Edge| e.label)
}

/// The result of reducing a graph: every interior node is eliminated in
/// node order; the remaining out-edge labels of the start node are
/// folded, left to right, with `Alt`.  A start node without out-edges
/// means the graph accepts no path at all, a distinct non-error outcome.
pub open spec fn reduce_model(g: GraphV) -> Result<
    Option<(Seq<RegexNode>, usize)>,
    GraphError,
> {
    match elim_all(g, interior_ids(g.nodes)) {
        Result::Err(e) => Result::Err(e),
        Result::Ok(g1) => {
            let j = idx_of(g1.nodes, START_ID);
            if j < 0 {
                Result::Err(GraphError::NodeNotFound)
            } else {
                let outs = g1.nodes[j].outs;
                if outs.len() == 0 {
                    Result::Ok(Option::None)
                } else {
                    let (a1, root) = fold_alt(g1.exprs, labels_of(outs));
                    Result::Ok(Option::Some((a1, root)))
                }
            }
        },
    }
}

/// The body of `reduce_graph`, working on the graph in place.
fn reduce_inner(graph: &mut Graph) -> (r: Result<Option<Expr>, GraphError>)
    ensures
        (match r {
            Result::Ok(Option::Some(e)) => reduce_model(old(graph)@) == Result::Ok::<
                Option<(Seq<RegexNode>, usize)>,
                GraphError,
            >(Option::Some((e.arena@, e.root))),
            Result::Ok(Option::None) => reduce_model(old(graph)@) == Result::Ok::<
                Option<(Seq<RegexNode>, usize)>,
                GraphError,
            >(Option::None),
            Result::Err(er) => reduce_model(old(graph)@) == Result::Err::<
                Option<(Seq<RegexNode>, usize)>,
                GraphError,
            >(er),
        }),
{
    let ghost g0 = old(graph)@;
    // Collect the interior ids in node order.
    let n_nodes = graph.nodes.len();
    let mut ids: Vec<u32> = Vec::new();
    let mut i: usize = 0;
    while i < n_nodes
        invariant
            i <= n_nodes,
            n_nodes == graph.nodes@.len(),
            graph@ == g0,
            ids@ == interior_ids(g0.nodes.take(i as int)),
        decreases n_nodes - i,
    {
        let id = graph.nodes[i].id;
        proof {
            assert(g0.nodes.take(i + 1 as int).drop_last() =~= g0.nodes.take(i as int));
            assert(g0.nodes.take(i + 1 as int).last() == g0.nodes[i as int]);
            assert(g0.nodes[i as int] == graph.nodes@[i as int]@);
        }
        if id != START_ID && id != END_ID {
            ids.push(id);
        }
        i = i + 1;
    }
    proof {
        assert(g0.nodes.take(n_nodes as int) =~= g0.nodes);
    }
    // Eliminate every interior node in order.
    let n_ids = ids.len();
    let mut k: usize = 0;
    while k < n_ids
        invariant
            k <= n_ids,
            n_ids == ids@.len(),
            g0 == old(graph)@,
            ids@ == interior_ids(g0.nodes),
            elim_all(g0, ids@.take(k as int)) == Result::Ok::<GraphV, GraphError>(graph@),
        decreases n_ids - k,
    {
        proof {
            assert(ids@.take(k + 1 as int).drop_last() =~= ids@.take(k as int));
            assert(ids@.take(k + 1 as int).last() == ids@[k as int]);
        }
        match remove_node(ids[k], &mut *graph) {
            Result::Ok(_) => (),
            Result::Err(e) => {
                proof {
                    assert(elim_all(g0, ids@.take(k + 1 as int)) == Result::Err::<
                        GraphV,
                        GraphError,
                    >(e));
                    lemma_elim_prefix_err(g0, ids@, k + 1 as int);
                    assert(elim_all(g0, interior_ids(g0.nodes)) == Result::Err::<
                        GraphV,
                        GraphError,
                    >(e));
                    assert(reduce_model(g0) == Result::Err::<
                        Option<(Seq<RegexNode>, usize)>,
                        GraphError,
                    >(e));
                }
                return Result::Err(e);
            },
        }
        k = k + 1;
    }
    proof {
        assert(ids@.take(n_ids as int) =~= ids@);
    }
    // Fold the start node's remaining out-edge labels with Alt.
    let j = match graph.position_of(START_ID) {
        Option::None => {
            return Result::Err(GraphError::NodeNotFound);
        },
        Option::Some(j) => j,
    };
    let ghost g1 = graph@;
    proof {
        assert(g1.nodes[j as int] == graph.nodes@[j as int]@);
    }
    let n_out = graph.nodes[j].out_edges.len();
    if n_out == 0 {
        return Result::Ok(Option::None);
    }
    let ghost a1 = g1.exprs;
    let ghost labels = labels_of(g1.nodes[j as int].outs);
    let mut acc: usize = graph.nodes[j].out_edges[0].label;
    let mut k2: usize = 1;
    proof {
        assert(labels.take(1) =~= seq![labels[0]]);
        assert((g1.exprs, acc) == fold_alt(a1, labels.take(1)));
    }
    while k2 < n_out
        invariant
            1 <= k2 <= n_out,
            j < graph.nodes@.len(),
            graph.nodes@[j as int]@ == g1.nodes[j as int],
            n_out == g1.nodes[j as int].outs.len(),
            labels == labels_of(g1.nodes[j as int].outs),
            (graph@.exprs, acc) == fold_alt(a1, labels.take(k2 as int)),
            node_views(graph.nodes@) == g1.nodes,
        decreases n_out - k2,
    {
        proof {
            assert(labels.take(k2 + 1 as int).drop_last() =~= labels.take(k2 as int));
            assert(labels.take(k2 + 1 as int).last() == labels[k2 as int]);
            assert(labels[k2 as int] == g1.nodes[j as int].outs[k2 as int].label);
        }
        let e = graph.nodes[j].out_edges[k2];
        let idx = graph.exprs.len();
        graph.exprs.push(RegexNode::Alt(acc, e.label));
        acc = idx;
        k2 = k2 + 1;
    }
    proof {
        assert(labels.take(n_out as int) =~= labels);
    }
    let mut exprs: Vec<RegexNode> = Vec::new();
    core::mem::swap(&mut exprs, &mut graph.exprs);
    Result::Ok(Option::Some(Expr { arena: exprs, root: acc }))
}

/// Reduces the whole graph to one regular expression by eliminating
/// every interior node, then folding the start node's remaining out-edge
/// labels with `Alt`.  `Ok(None)` means the start node ended with no
/// out-edges: the graph accepts no path.  An error reports the first
/// inconsistency met.  The graph is consumed: after reduction its value
/// lives on only in the returned expression.
pub fn reduce_graph(graph: Graph) -> (r: Result<Option<Expr>, GraphError>)
    ensures
        (match r {
            Result::Ok(Option::Some(e)) => reduce_model(graph@) == Result::Ok::<
                Option<(Seq<RegexNode>, usize)>,
                GraphError,
            >(Option::Some((e.arena@, e.root))),
            Result::Ok(Option::None) => reduce_model(graph@) == Result::Ok::<
                Option<(Seq<RegexNode>, usize)>,
                GraphError,
            >(Option::None),
            Result::Err(er) => reduce_model(graph@) == Result::Err::<
                Option<(Seq<RegexNode>, usize)>,
                GraphError,
            >(er),
        }),
{
    let mut g = graph;
    reduce_inner(&mut g)
}

} // verus!

verus! {

/// The edge value occurs in the list.
pub open spec fn edge_in(es: Seq<Edge>, e: Edge) -> bool {
    exists|k: int| 0 <= k < es.len() && es[k] == e
}

/// Every entry of `sans_loops` is a non-loop entry of the original
/// list.
proof fn lemma_sans_loops_elems(es: Seq<Edge>, id: u32)
    ensures
        forall|k: int|
            0 <= k < sans_loops(es, id).len() ==> ((#[trigger] sans_loops(es, id)[k]).other != id
                && edge_in(es, sans_loops(es, id)[k])),
    decreases es.len(),
{
    if es.len() > 0 {
        lemma_sans_loops_elems(es.drop_last(), id);
        let s = sans_loops(es, id);
        let r = sans_loops(es.drop_last(), id);
        assert forall|k: int| 0 <= k < s.len() implies ((#[trigger] s[k]).other != id && edge_in(
            es,
            s[k],
        )) by {
            if es.last().other != id && k == r.len() {
                assert(s[k] == es.last());
                assert(es[es.len() - 1] == es.last());
                assert(edge_in(es, es.last()));
            } else {
                assert(s[k] == r[k]);
                assert(r[k].other != id && edge_in(es.drop_last(), r[k]));
                let k0 = choose|k0: int|
                    0 <= k0 < es.drop_last().len() && es.drop_last()[k0] == r[k];
                assert(es[k0] == r[k]);
                assert(edge_in(es, r[k]));
            }
        }
    }
}

/// Looking a distinct id up after removing another node finds the same
/// node value.
proof fn lemma_idx_of_remove(ns: Seq<NodeV>, j: int, t: u32)
    requires
        ids_distinct(ns),
        0 <= j < ns.len(),
        t != ns[j].id,
        idx_of(ns, t) >= 0,
    ensures
        idx_of(ns.remove(j), t) >= 0,
        ns.remove(j)[idx_of(ns.remove(j), t)] == ns[idx_of(ns, t)],
{
    lemma_idx_of(ns, t);
    let r = idx_of(ns, t);
    let ns0 = ns.remove(j);
    ns.remove_ensures(j);
    assert(r != j);
    let rp: int = if r < j {
        r
    } else {
        r - 1
    };
    assert(ns0[rp] == ns[r]);
    lemma_idx_of(ns0, t);
    assert(idx_of(ns0, t) >= 0) by {
        if idx_of(ns0, t) < 0 {
            assert(ns0[rp].id != t);
        }
    }
    let r2 = idx_of(ns0, t);
    let orig: int = if r2 < j {
        r2
    } else {
        r2 + 1
    };
    assert(ns0[r2] == ns[orig]);
    assert(ns[orig].id == t);
    assert(orig == r) by {
        if orig < r {
            assert(ns[orig].id != t);
        }
        if orig > r {
            assert(ns[orig].id != ns[r].id);
        }
    }
}

/// On a well-formed graph every node's self-loops are mirrored: the
/// self-loop extractor never reports an inconsistency.
pub proof fn lemma_wf_loops_matched(g: GraphV, i: int)
    requires
        wf(g),
        0 <= i < g.nodes.len(),
    ensures
        loops_matched(g.nodes[i]),
{
    let ns = g.nodes;
    let n = ns[i];
    lemma_idx_of(ns, n.id);
    let j = idx_of(ns, n.id);
    assert(j >= 0) by {
        if j < 0 {
            assert(ns[i].id != n.id);
        }
    }
    assert(j == i) by {
        if j < i {
            assert(ns[j].id != ns[i].id);
        }
        if j > i {
            assert(ns[i].id != n.id);
        }
    }
    assert forall|k: int|
        0 <= k < n.outs.len() && (#[trigger] n.outs[k]).other == n.id implies has_edge(
        n.ins,
        n.outs[k].label,
        n.id,
    ) by {
        assert(out_mirror_ok(ns, i, k));
    }
    assert forall|k: int|
        0 <= k < n.ins.len() && (#[trigger] n.ins[k]).other == n.id implies has_edge(
        n.outs,
        n.ins[k].label,
        n.id,
    ) by {
        assert(in_mirror_ok(ns, i, k));
    }
}

/// On a well-formed graph, eliminating a present interior node never
/// reports an inconsistency: every mirror occurrence the eliminator
/// looks for is there, so success is owed.
pub proof fn lemma_wf_remove_node_ok(g: GraphV, id: u32)
    requires
        wf(g),
        id != START_ID,
        id != END_ID,
        idx_of(g.nodes, id) >= 0,
    ensures
        remove_node_model(g, id) is Ok,
{
    let ns = g.nodes;
    lemma_idx_of(ns, id);
    let j = idx_of(ns, id);
    let n = ns[j];
    lemma_wf_loops_matched(g, j);
    let ns0 = ns.remove(j);
    let n2 = loop_star(n, g.exprs).1;
    lemma_sans_loops_elems(n.ins, id);
    lemma_sans_loops_elems(n.outs, id);
    assert(n.id == id);
    assert(n2.ins == sans_loops(n.ins, id));
    assert(n2.outs == sans_loops(n.outs, id));
    assert forall|k: int| 0 <= k < n2.ins.len() && (#[trigger] n2.ins[k]).other != id implies {
        let jp = idx_of(ns0, n2.ins[k].other);
        jp >= 0 && has_edge(ns0[jp].outs, n2.ins[k].label, id)
    } by {
        let e = n2.ins[k];
        assert(edge_in(n.ins, e));
        let k0 = choose|k0: int| 0 <= k0 < n.ins.len() && n.ins[k0] == e;
        assert(in_mirror_ok(ns, j, k0));
        lemma_idx_of(ns, e.other);
        lemma_idx_of_remove(ns, j, e.other);
    }
    assert forall|k: int| 0 <= k < n2.outs.len() && (#[trigger] n2.outs[k]).other != id implies {
        let jp = idx_of(ns0, n2.outs[k].other);
        jp >= 0 && has_edge(ns0[jp].ins, n2.outs[k].label, id)
    } by {
        let e = n2.outs[k];
        assert(edge_in(n.outs, e));
        let k0 = choose|k0: int| 0 <= k0 < n.outs.len() && n.outs[k0] == e;
        assert(out_mirror_ok(ns, j, k0));
        lemma_idx_of(ns, e.other);
        lemma_idx_of_remove(ns, j, e.other);
    }
    assert(removal_consistent(ns0, n2, id));
}

} // verus!

verus! {

/// Some entry of the list carries this label.
pub open spec fn label_from(es: Seq<Edge>, l: usize) -> bool {
    exists|k: int| 0 <= k < es.len() && es[k].label == l
}

/// Every edge label of every node lies below `m`.
pub open spec fn labels_below(ns: Seq<NodeV>, m: int) -> bool {
    &&& forall|i: int, k: int|
        0 <= i < ns.len() && 0 <= k < ns[i].outs.len() ==> (#[trigger] ns[i].outs[k]).label < m
    &&& forall|i: int, k: int|
        0 <= i < ns.len() && 0 <= k < ns[i].ins.len() ==> (#[trigger] ns[i].ins[k]).label < m
}

/// Every entry of `remove_matching` is an entry of the original list.
proof fn lemma_remove_matching_elems(es: Seq<Edge>, label: usize, other: u32)
    ensures
        forall|k: int|
            0 <= k < remove_matching(es, label, other).len() ==> edge_in(
                es,
                #[trigger] remove_matching(es, label, other)[k],
            ),
    decreases es.len(),
{
    if es.len() > 0 {
        lemma_remove_matching_elems(es.drop_last(), label, other);
        let s = remove_matching(es, label, other);
        let r = remove_matching(es.drop_last(), label, other);
        assert forall|k: int| 0 <= k < s.len() implies edge_in(es, s[k]) by {
            if !(es.last().label == label && es.last().other == other) && k == r.len() {
                assert(s[k] == es.last());
                assert(es[es.len() - 1] == es.last());
            } else {
                assert(s[k] == r[k]);
                assert(edge_in(es.drop_last(), r[k]));
                let k0 = choose|k0: int|
                    0 <= k0 < es.drop_last().len() && es.drop_last()[k0] == r[k];
                assert(es[k0] == r[k]);
            }
        }
    }
}

/// Every label collected by `loop_labels` is a label of the list.
proof fn lemma_loop_labels_elems(es: Seq<Edge>, id: u32)
    ensures
        forall|k: int|
            0 <= k < loop_labels(es, id).len() ==> label_from(es, #[trigger] loop_labels(es, id)[k]),
    decreases es.len(),
{
    if es.len() > 0 {
        lemma_loop_labels_elems(es.drop_last(), id);
        let s = loop_labels(es, id);
        let r = loop_labels(es.drop_last(), id);
        assert forall|k: int| 0 <= k < s.len() implies label_from(es, s[k]) by {
            if es.last().other == id && k == r.len() {
                assert(s[k] == es.last().label);
                assert(es[es.len() - 1] == es.last());
            } else {
                assert(s[k] == r[k]);
                assert(label_from(es.drop_last(), r[k]));
                let k0 = choose|k0: int|
                    0 <= k0 < es.drop_last().len() && es.drop_last()[k0].label == r[k];
                assert(es[k0].label == r[k]);
            }
        }
    }
}

/// Folding labels that point into a well-ordered arena keeps the arena
/// well ordered, and the fold's root points into it.
proof fn lemma_fold_alt_arena(a: Seq<RegexNode>, ls: Seq<usize>)
    requires
        arena_ok(a),
        ls.len() >= 1,
        forall|k: int| 0 <= k < ls.len() ==> (#[trigger] ls[k]) < a.len(),
    ensures
        arena_ok(fold_alt(a, ls).0),
        fold_alt(a, ls).1 < fold_alt(a, ls).0.len(),
        fold_alt(a, ls).0.len() >= a.len(),
    decreases ls.len(),
{
    if ls.len() > 1 {
        assert(forall|k: int|
            0 <= k < ls.drop_last().len() ==> (#[trigger] ls.drop_last()[k]) < a.len());
        lemma_fold_alt_arena(a, ls.drop_last());
        let (a1, acc) = fold_alt(a, ls.drop_last());
        let a2 = a1.push(RegexNode::Alt(acc, ls.last()));
        assert forall|i: int| 0 <= i < a2.len() implies arena_cell_ok(#[trigger] a2[i], i) by {
            if i < a1.len() {
                assert(a2[i] == a1[i]);
            } else {
                assert(a2[i] == RegexNode::Alt(acc, ls.last()));
            }
        }
    }
}

/// Extracting self-loops keeps the arena well ordered and the node's
/// remaining labels below the old arena length; the star points into
/// the grown arena.
proof fn lemma_loop_star_arena(n: NodeV, a: Seq<RegexNode>)
    requires
        arena_ok(a),
        forall|k: int| 0 <= k < n.outs.len() ==> (#[trigger] n.outs[k]).label < a.len(),
        forall|k: int| 0 <= k < n.ins.len() ==> (#[trigger] n.ins[k]).label < a.len(),
    ensures
        arena_ok(loop_star(n, a).2),
        loop_star(n, a).2.len() >= a.len(),
        (loop_star(n, a).0 matches Option::Some(l) ==> l < loop_star(n, a).2.len()),
        forall|k: int|
            0 <= k < loop_star(n, a).1.outs.len() ==> (#[trigger] loop_star(n, a).1.outs[k]).label
                < a.len(),
        forall|k: int|
            0 <= k < loop_star(n, a).1.ins.len() ==> (#[trigger] loop_star(n, a).1.ins[k]).label
                < a.len(),
{
    let ls = loop_labels(n.outs, n.id);
    lemma_loop_labels_elems(n.outs, n.id);
    lemma_sans_loops_elems(n.outs, n.id);
    lemma_sans_loops_elems(n.ins, n.id);
    let n2 = loop_star(n, a).1;
    assert forall|k: int| 0 <= k < n2.outs.len() implies (#[trigger] n2.outs[k]).label
        < a.len() by {
        assert(edge_in(n.outs, n2.outs[k]));
        let k0 = choose|k0: int| 0 <= k0 < n.outs.len() && n.outs[k0] == n2.outs[k];
        assert(n.outs[k0].label < a.len());
    }
    assert forall|k: int| 0 <= k < n2.ins.len() implies (#[trigger] n2.ins[k]).label < a.len() by {
        assert(edge_in(n.ins, n2.ins[k]));
        let k0 = choose|k0: int| 0 <= k0 < n.ins.len() && n.ins[k0] == n2.ins[k];
        assert(n.ins[k0].label < a.len());
    }
    if ls.len() > 0 {
        assert forall|k: int| 0 <= k < ls.len() implies (#[trigger] ls[k]) < a.len() by {
            assert(label_from(n.outs, ls[k]));
            let k0 = choose|k0: int| 0 <= k0 < n.outs.len() && n.outs[k0].label == ls[k];
            assert(n.outs[k0].label < a.len());
        }
        lemma_fold_alt_arena(a, ls);
        let (a1, acc) = fold_alt(a, ls);
        let a2 = a1.push(RegexNode::Star(acc));
        assert forall|i: int| 0 <= i < a2.len() implies arena_cell_ok(#[trigger] a2[i], i) by {
            if i < a1.len() {
                assert(a2[i] == a1[i]);
            } else {
                assert(a2[i] == RegexNode::Star(acc));
            }
        }
    }
}

} // verus!

verus! {

/// Dropping a node keeps every label below the bound.
proof fn lemma_labels_below_remove(ns: Seq<NodeV>, j: int, m: int)
    requires
        labels_below(ns, m),
        0 <= j < ns.len(),
    ensures
        labels_below(ns.remove(j), m),
{
    ns.remove_ensures(j);
    let ns0 = ns.remove(j);
    assert forall|i: int, k: int|
        0 <= i < ns0.len() && 0 <= k < ns0[i].outs.len() implies (#[trigger] ns0[i].outs[k]).label
        < m by {
        if i < j {
            assert(ns0[i] == ns[i]);
        } else {
            assert(ns0[i] == ns[i + 1]);
        }
    }
    assert forall|i: int, k: int|
        0 <= i < ns0.len() && 0 <= k < ns0[i].ins.len() implies (#[trigger] ns0[i].ins[k]).label
        < m by {
        if i < j {
            assert(ns0[i] == ns[i]);
        } else {
            assert(ns0[i] == ns[i + 1]);
        }
    }
}

/// The first elimination phase only shrinks in-edge lists: every label
/// stays below the bound.
proof fn lemma_phase_a_labels(ns: Seq<NodeV>, outs: Seq<Edge>, id: u32, m: int)
    requires
        labels_below(ns, m),
    ensures
        labels_below(phase_a(ns, outs, id), m),
        phase_a(ns, outs, id).len() == ns.len(),
    decreases outs.len(),
{
    if outs.len() > 0 {
        lemma_phase_a_labels(ns, outs.drop_last(), id, m);
        let ns1 = phase_a(ns, outs.drop_last(), id);
        let e = outs.last();
        let ns2 = drop_in_mirror(ns1, e, id);
        let j = idx_of(ns1, e.other);
        if j >= 0 {
            lemma_idx_of(ns1, e.other);
            lemma_remove_matching_elems(ns1[j].ins, e.label, id);
            assert forall|i: int, k: int|
                0 <= i < ns2.len() && 0 <= k < ns2[i].ins.len() implies (
            #[trigger] ns2[i].ins[k]).label < m by {
                if i == j {
                    assert(edge_in(ns1[j].ins, ns2[i].ins[k]));
                    let k0 = choose|k0: int|
                        0 <= k0 < ns1[j].ins.len() && ns1[j].ins[k0] == ns2[i].ins[k];
                } else {
                    assert(ns2[i] == ns1[i]);
                }
            }
            assert forall|i: int, k: int|
                0 <= i < ns2.len() && 0 <= k < ns2[i].outs.len() implies (
            #[trigger] ns2[i].outs[k]).label < m by {
                if i != j {
                    assert(ns2[i] == ns1[i]);
                } else {
                    assert(ns2[i].outs == ns1[i].outs);
                }
            }
        }
    }
}

/// Adding one merged edge keeps the arena well ordered and every label
/// inside it.
proof fn lemma_add_pair_arena(ns: Seq<NodeV>, a: Seq<RegexNode>, ea: Edge, lp: Option<usize>, eb: Edge)
    requires
        arena_ok(a),
        labels_below(ns, a.len() as int),
        ea.label < a.len(),
        eb.label < a.len(),
        (lp matches Option::Some(l) ==> l < a.len()),
    ensures
        arena_ok(add_pair(ns, a, ea, lp, eb).1),
        add_pair(ns, a, ea, lp, eb).1.len() >= a.len(),
        labels_below(add_pair(ns, a, ea, lp, eb).0, add_pair(ns, a, ea, lp, eb).1.len() as int),
        add_pair(ns, a, ea, lp, eb).0.len() == ns.len(),
{
    let (a1, m) = merge_label(a, ea.label, lp, eb.label);
    assert forall|i: int| 0 <= i < a1.len() implies arena_cell_ok(#[trigger] a1[i], i) by {
        if i < a.len() {
            assert(a1[i] == a[i]);
        } else {
            match lp {
                Option::None => {
                    assert(a1[i] == RegexNode::Concat(ea.label, eb.label));
                },
                Option::Some(l) => {
                    if i == a.len() {
                        assert(a1[i] == RegexNode::Concat(ea.label, l));
                    } else {
                        assert(a1[i] == RegexNode::Concat(a.len() as usize, eb.label));
                    }
                },
            }
        }
    }
    assert(m < a1.len());
    let (ns2, _) = add_pair(ns, a, ea, lp, eb);
    let mb = a1.len() as int;
    let jp0 = idx_of(ns, ea.other);
    if jp0 >= 0 {
        lemma_idx_of(ns, ea.other);
    }
    let nsm = if jp0 < 0 {
        ns
    } else {
        ns.update(
            jp0,
            NodeV { outs: ns[jp0].outs.push(Edge { label: m, other: eb.other }), ..ns[jp0] },
        )
    };
    let js0 = idx_of(nsm, eb.other);
    if js0 >= 0 {
        lemma_idx_of(nsm, eb.other);
    }
    assert(ns2.len() == ns.len());
    assert forall|i: int, k: int|
        0 <= i < ns2.len() && 0 <= k < ns2[i].outs.len() implies (#[trigger] ns2[i].outs[k]).label
        < mb by {
        let jp = idx_of(ns, ea.other);
        let ns1 = if jp < 0 {
            ns
        } else {
            ns.update(
                jp,
                NodeV { outs: ns[jp].outs.push(Edge { label: m, other: eb.other }), ..ns[jp] },
            )
        };
        if jp >= 0 {
            lemma_idx_of(ns, ea.other);
        }
        let js = idx_of(ns1, eb.other);
        if js >= 0 {
            lemma_idx_of(ns1, eb.other);
        }
        if i == jp && 0 <= jp {
            if k < ns[jp].outs.len() {
                assert(ns1[jp].outs[k] == ns[jp].outs[k]);
            } else {
                assert(ns1[jp].outs[k] == (Edge { label: m, other: eb.other }));
            }
            assert(ns2[i].outs == ns1[i].outs);
        } else {
            assert(ns2[i].outs == ns1[i].outs);
            assert(ns1[i].outs == ns[i].outs);
        }
    }
    assert forall|i: int, k: int|
        0 <= i < ns2.len() && 0 <= k < ns2[i].ins.len() implies (#[trigger] ns2[i].ins[k]).label
        < mb by {
        let jp = idx_of(ns, ea.other);
        let ns1 = if jp < 0 {
            ns
        } else {
            ns.update(
                jp,
                NodeV { outs: ns[jp].outs.push(Edge { label: m, other: eb.other }), ..ns[jp] },
            )
        };
        if jp >= 0 {
            lemma_idx_of(ns, ea.other);
        }
        let js = idx_of(ns1, eb.other);
        if js >= 0 {
            lemma_idx_of(ns1, eb.other);
        }
        if i == js && 0 <= js {
            if k < ns1[js].ins.len() {
                assert(ns2[i].ins[k] == ns1[js].ins[k]);
                assert(ns1[js].ins == ns[js].ins);
            } else {
                assert(ns2[i].ins[k] == (Edge { label: m, other: ea.other }));
            }
        } else {
            assert(ns2[i].ins == ns1[i].ins);
            assert(ns1[i].ins == ns[i].ins);
        }
    }
}

/// Adding the merged edges for one predecessor keeps the arena well
/// ordered and every label inside it.
proof fn lemma_add_pairs_arena(
    ns: Seq<NodeV>,
    a: Seq<RegexNode>,
    ea: Edge,
    lp: Option<usize>,
    outs: Seq<Edge>,
    m0: int,
)
    requires
        arena_ok(a),
        labels_below(ns, a.len() as int),
        0 <= m0 <= a.len(),
        ea.label < m0,
        (lp matches Option::Some(l) ==> l < a.len()),
        forall|k: int| 0 <= k < outs.len() ==> (#[trigger] outs[k]).label < m0,
    ensures
        arena_ok(add_pairs(ns, a, ea, lp, outs).1),
        add_pairs(ns, a, ea, lp, outs).1.len() >= a.len(),
        labels_below(add_pairs(ns, a, ea, lp, outs).0, add_pairs(ns, a, ea, lp, outs).1.len() as int),
        add_pairs(ns, a, ea, lp, outs).0.len() == ns.len(),
    decreases outs.len(),
{
    if outs.len() > 0 {
        assert(forall|k: int|
            0 <= k < outs.drop_last().len() ==> (#[trigger] outs.drop_last()[k]).label < m0);
        lemma_add_pairs_arena(ns, a, ea, lp, outs.drop_last(), m0);
        let (ns1, a1) = add_pairs(ns, a, ea, lp, outs.drop_last());
        assert(outs.last().label < m0);
        assert(a1.len() >= a.len());
        lemma_add_pair_arena(ns1, a1, ea, lp, outs.last());
    }
}

/// Processing one predecessor keeps the arena well ordered and every
/// label inside it.
proof fn lemma_elim_pred_arena(
    ns: Seq<NodeV>,
    a: Seq<RegexNode>,
    ea: Edge,
    lp: Option<usize>,
    outs: Seq<Edge>,
    id: u32,
    m0: int,
)
    requires
        arena_ok(a),
        labels_below(ns, a.len() as int),
        0 <= m0 <= a.len(),
        ea.label < m0,
        (lp matches Option::Some(l) ==> l < a.len()),
        forall|k: int| 0 <= k < outs.len() ==> (#[trigger] outs[k]).label < m0,
    ensures
        arena_ok(elim_pred(ns, a, ea, lp, outs, id).1),
        elim_pred(ns, a, ea, lp, outs, id).1.len() >= a.len(),
        labels_below(
            elim_pred(ns, a, ea, lp, outs, id).0,
            elim_pred(ns, a, ea, lp, outs, id).1.len() as int,
        ),
        elim_pred(ns, a, ea, lp, outs, id).0.len() == ns.len(),
{
    let jp = idx_of(ns, ea.other);
    let ns1 = if jp < 0 {
        ns
    } else {
        ns.update(jp, NodeV { outs: remove_matching(ns[jp].outs, ea.label, id), ..ns[jp] })
    };
    if jp >= 0 {
        lemma_idx_of(ns, ea.other);
        lemma_remove_matching_elems(ns[jp].outs, ea.label, id);
        assert forall|i: int, k: int|
            0 <= i < ns1.len() && 0 <= k < ns1[i].outs.len() implies (
        #[trigger] ns1[i].outs[k]).label < a.len() as int by {
            if i == jp {
                assert(edge_in(ns[jp].outs, ns1[i].outs[k]));
                let k0 = choose|k0: int|
                    0 <= k0 < ns[jp].outs.len() && ns[jp].outs[k0] == ns1[i].outs[k];
            } else {
                assert(ns1[i].outs == ns[i].outs);
            }
        }
        assert forall|i: int, k: int|
            0 <= i < ns1.len() && 0 <= k < ns1[i].ins.len() implies (
        #[trigger] ns1[i].ins[k]).label < a.len() as int by {
            if i == jp {
                assert(ns1[i].ins == ns[i].ins);
            } else {
                assert(ns1[i].ins == ns[i].ins);
            }
        }
    }
    lemma_add_pairs_arena(ns1, a, ea, lp, outs, m0);
}

/// The second elimination phase keeps the arena well ordered and every
/// label inside it.
proof fn lemma_phase_b_arena(
    ns: Seq<NodeV>,
    a: Seq<RegexNode>,
    ins: Seq<Edge>,
    lp: Option<usize>,
    outs: Seq<Edge>,
    id: u32,
    m0: int,
)
    requires
        arena_ok(a),
        labels_below(ns, a.len() as int),
        0 <= m0 <= a.len(),
        (lp matches Option::Some(l) ==> l < a.len()),
        forall|k: int| 0 <= k < ins.len() ==> (#[trigger] ins[k]).label < m0,
        forall|k: int| 0 <= k < outs.len() ==> (#[trigger] outs[k]).label < m0,
    ensures
        arena_ok(phase_b(ns, a, ins, lp, outs, id).1),
        phase_b(ns, a, ins, lp, outs, id).1.len() >= a.len(),
        labels_below(
            phase_b(ns, a, ins, lp, outs, id).0,
            phase_b(ns, a, ins, lp, outs, id).1.len() as int,
        ),
        phase_b(ns, a, ins, lp, outs, id).0.len() == ns.len(),
    decreases ins.len(),
{
    if ins.len() > 0 {
        assert(forall|k: int|
            0 <= k < ins.drop_last().len() ==> (#[trigger] ins.drop_last()[k]).label < m0);
        lemma_phase_b_arena(ns, a, ins.drop_last(), lp, outs, id, m0);
        let (ns1, a1) = phase_b(ns, a, ins.drop_last(), lp, outs, id);
        assert(ins.last().label < m0);
        assert(a1.len() >= a.len());
        lemma_elim_pred_arena(ns1, a1, ins.last(), lp, outs, id, m0);
    }
}

/// Eliminating a node keeps the arena well ordered and every label
/// inside it.
proof fn lemma_remove_node_arena(g: GraphV, id: u32)
    requires
        arena_ok(g.exprs),
        labels_below(g.nodes, g.exprs.len() as int),
        remove_node_model(g, id) is Ok,
    ensures
        arena_ok(remove_node_model(g, id)->Ok_0.exprs),
        remove_node_model(g, id)->Ok_0.exprs.len() >= g.exprs.len(),
        labels_below(
            remove_node_model(g, id)->Ok_0.nodes,
            remove_node_model(g, id)->Ok_0.exprs.len() as int,
        ),
{
    let j = idx_of(g.nodes, id);
    lemma_idx_of(g.nodes, id);
    let n = g.nodes[j];
    let ns0 = g.nodes.remove(j);
    let (lp, n2, a2) = loop_star(n, g.exprs);
    lemma_loop_star_arena(n, g.exprs);
    lemma_labels_below_remove(g.nodes, j, g.exprs.len() as int);
    assert(labels_below(ns0, a2.len() as int));
    lemma_phase_a_labels(ns0, n2.outs, id, a2.len() as int);
    let ns1 = phase_a(ns0, n2.outs, id);
    lemma_phase_b_arena(ns1, a2, n2.ins, lp, n2.outs, id, g.exprs.len() as int);
}

/// Elimination of a whole id list keeps the arena well ordered and
/// every label inside it.
proof fn lemma_elim_all_arena(g: GraphV, ids: Seq<u32>)
    requires
        arena_ok(g.exprs),
        labels_below(g.nodes, g.exprs.len() as int),
        elim_all(g, ids) is Ok,
    ensures
        arena_ok(elim_all(g, ids)->Ok_0.exprs),
        labels_below(elim_all(g, ids)->Ok_0.nodes, elim_all(g, ids)->Ok_0.exprs.len() as int),
    decreases ids.len(),
{
    if ids.len() > 0 {
        lemma_elim_all_arena(g, ids.drop_last());
        let g1 = elim_all(g, ids.drop_last())->Ok_0;
        lemma_remove_node_arena(g1, ids.last());
    }
}

/// Whenever reduction of a graph whose labels all point into its
/// well-ordered arena yields an expression, that expression's arena is
/// well ordered and its root points into it: rendering it never meets a
/// dangling child reference.
pub proof fn lemma_reduce_model_arena(g: GraphV)
    requires
        arena_ok(g.exprs),
        labels_below(g.nodes, g.exprs.len() as int),
    ensures
        (reduce_model(g) matches Result::Ok(r) ==> (r matches Option::Some((a, root)) ==> arena_ok(
            a,
        ) && root < a.len())),
{
    if reduce_model(g) is Ok {
        let ids = interior_ids(g.nodes);
        lemma_elim_all_arena(g, ids);
        let g1 = elim_all(g, ids)->Ok_0;
        let j = idx_of(g1.nodes, START_ID);
        if j >= 0 {
            lemma_idx_of(g1.nodes, START_ID);
            let outs = g1.nodes[j].outs;
            if outs.len() > 0 {
                let ls = labels_of(outs);
                assert forall|k: int| 0 <= k < ls.len() implies (#[trigger] ls[k])
                    < g1.exprs.len() by {
                    assert(ls[k] == outs[k].label);
                }
                lemma_fold_alt_arena(g1.exprs, ls);
            }
        }
    }
}

} // verus!
