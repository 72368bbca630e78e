//! The event graph: nodes addressed by id, with mirrored adjacency lists.
//!
//! Every edge occurrence is stored twice: as `(label, target)` in the
//! source node's `out_edges` and as `(label, source)` in the target
//! node's `in_edges`.  The label is an index into the expression arena,
//! assigned freshly for every edge occurrence, so it identifies the
//! occurrence itself: removing an edge removes exactly the entry with
//! that label, never a merely structurally equal one.

use vstd::prelude::*;

use crate::ast::EdgeType;
use crate::ast::RegexNode;

verus! {

/// Id of the initial event (`init`): the start node of every path.
pub const START_ID: u32 = 0;

/// Id of the synthetic terminal event: the end node of every path.
pub const END_ID: u32 = u32::MAX;

/// One direction of an edge occurrence: the arena index of its label and
/// the id of the node at the far end.
#[derive(Clone, Copy, PartialEq, Eq, Structural, Debug)]
pub struct Edge {
    pub label: usize,
    pub other: u32,
}

/// Whether a memory event reads or writes.
#[derive(Clone, Copy, PartialEq, Eq, Structural, Debug)]
pub enum AccessKind {
    Read,
    Write,
}

/// The memory access performed by an event; the start and end nodes
/// perform none.
#[derive(Debug)]
pub struct MemAccess {
    pub kind: AccessKind,
    pub addr: Vec<u8>,
    pub value: u32,
}

/// A node of the event graph.
#[derive(Debug)]
pub struct Node {
    pub id: u32,
    pub access: Option<MemAccess>,
    pub in_edges: Vec<Edge>,
    pub out_edges: Vec<Edge>,
}

/// The event graph: the nodes, and the arena holding every edge label.
#[derive(Debug)]
pub struct Graph {
    pub nodes: Vec<Node>,
    pub exprs: Vec<RegexNode>,
}

/// Why a graph operation was refused.
#[derive(Clone, Copy, PartialEq, Eq, Structural, Debug)]
pub enum GraphError {
    /// An id was looked up that no node carries.
    NodeNotFound,
    /// A node was inserted under an id that is already present.
    DuplicateNode,
    /// The start or end node was asked to be eliminated.
    NotInterior,
    /// An expected matching edge occurrence is missing from the opposite
    /// adjacency list: the graph violates the mirror invariant.
    Inconsistent,
}

/// Mathematical value of a [`MemAccess`].
#[verifier::ext_equal]
pub ghost struct MemAccessV {
    pub kind: AccessKind,
    pub addr: Seq<u8>,
    pub value: u32,
}

/// Mathematical value of a [`Node`].
#[verifier::ext_equal]
pub ghost struct NodeV {
    pub id: u32,
    pub access: Option<MemAccessV>,
    pub ins: Seq<Edge>,
    pub outs: Seq<Edge>,
}

/// Mathematical value of a [`Graph`].
#[verifier::ext_equal]
pub ghost struct GraphV {
    pub nodes: Seq<NodeV>,
    pub exprs: Seq<RegexNode>,
}

impl View for MemAccess {
    type V = MemAccessV;

    open spec fn view(&self) -> MemAccessV {
        MemAccessV { kind: self.kind, addr: self.addr@, value: self.value }
    }
}

/// Mathematical value of an optional access.
pub open spec fn access_view(a: Option<MemAccess>) -> Option<MemAccessV> {
    match a {
        Option::Some(m) => Option::Some(m@),
        Option::None => Option::None,
    }
}

impl View for Node {
    type V = NodeV;

    open spec fn view(&self) -> NodeV {
        NodeV {
            id: self.id,
            access: access_view(self.access),
            ins: self.in_edges@,
            outs: self.out_edges@,
        }
    }
}

/// The node values of a node sequence.
pub open spec fn node_views(ns: Seq<Node>) -> Seq<NodeV> {
    ns.map_values(|n: Node| n@)
}

impl View for Graph {
    type V = GraphV;

    open spec fn view(&self) -> GraphV {
        GraphV { nodes: node_views(self.nodes@), exprs: self.exprs@ }
    }
}

/// Index of the first node carrying `id`, or `-1` if there is none.
pub open spec fn idx_of(ns: Seq<NodeV>, id: u32) -> int
    decreases ns.len(),
{
    if ns.len() == 0 {
        -1
    } else if ns[0].id == id {
        0
    } else {
        let r = idx_of(ns.skip(1), id);
        if r < 0 {
            -1
        } else {
            r + 1
        }
    }
}

/// `idx_of` returns the first index with the id, or `-1` when the id is
/// absent.
pub proof fn lemma_idx_of(ns: Seq<NodeV>, id: u32)
    ensures
        idx_of(ns, id) >= 0 ==> idx_of(ns, id) < ns.len() && ns[idx_of(ns, id)].id == id && (forall|
            j: int,
        | 0 <= j < idx_of(ns, id) ==> ns[j].id != id),
        idx_of(ns, id) < 0 ==> (forall|j: int| 0 <= j < ns.len() ==> ns[j].id != id),
    decreases ns.len(),
{
    if ns.len() > 0 && ns[0].id != id {
        let tail = ns.skip(1);
        lemma_idx_of(tail, id);
        assert(forall|j: int| 0 <= j < tail.len() ==> tail[j] == ns[j + 1]);
        let r = idx_of(tail, id);
        if r >= 0 {
            assert(idx_of(ns, id) == r + 1);
            assert(ns[r + 1] == tail[r]);
            assert forall|j: int| 0 <= j < r + 1 implies ns[j].id != id by {
                if j > 0 {
                    assert(ns[j] == tail[j - 1]);
                }
            }
        } else {
            assert forall|j: int| 0 <= j < ns.len() implies ns[j].id != id by {
                if j > 0 {
                    assert(ns[j] == tail[j - 1]);
                }
            }
        }
    }
}

/// `idx_of` depends only on the ids of the nodes.
pub proof fn lemma_idx_of_same_ids(a: Seq<NodeV>, b: Seq<NodeV>, id: u32)
    requires
        a.len() == b.len(),
        forall|j: int| 0 <= j < a.len() ==> a[j].id == b[j].id,
    ensures
        idx_of(a, id) == idx_of(b, id),
    decreases a.len(),
{
    if a.len() > 0 {
        lemma_idx_of_same_ids(a.skip(1), b.skip(1), id);
        assert(forall|j: int| 0 <= j < a.len() - 1 ==> a.skip(1)[j] == a[j + 1]);
        assert(forall|j: int| 0 <= j < b.len() - 1 ==> b.skip(1)[j] == b[j + 1]);
    }
}

/// Whether the list holds an edge occurrence with this label and far end.
pub open spec fn has_edge(es: Seq<Edge>, label: usize, other: u32) -> bool {
    exists|k: int| 0 <= k < es.len() && es[k].label == label && es[k].other == other
}

/// The list with every occurrence of `(label, other)` removed, order of
/// the rest preserved.
pub open spec fn remove_matching(es: Seq<Edge>, label: usize, other: u32) -> Seq<Edge>
    decreases es.len(),
{
    if es.len() == 0 {
        Seq::empty()
    } else {
        let r = remove_matching(es.drop_last(), label, other);
        if es.last().label == label && es.last().other == other {
            r
        } else {
            r.push(es.last())
        }
    }
}

/// Looks a node up by id; returns its position.
pub fn find_node(nodes: &Vec<Node>, id: u32) -> (r: Option<usize>)
    ensures
        (match r {
            Option::Some(j) => j < nodes@.len() && idx_of(node_views(nodes@), id) == j,
            Option::None => idx_of(node_views(nodes@), id) == -1,
        }),
{
    let ghost ns = node_views(nodes@);
    let n = nodes.len();
    let mut k: usize = 0;
    while k < n
        invariant
            k <= n,
            n == nodes@.len(),
            ns == node_views(nodes@),
            forall|j: int| 0 <= j < k ==> ns[j].id != id,
        decreases n - k,
    {
        if nodes[k].id == id {
            proof {
                assert(ns[k as int] == nodes@[k as int]@);
                assert(ns[k as int].id == id);
                lemma_idx_of(ns, id);
                let r = idx_of(ns, id);
                assert(r >= 0);
                assert(!(r < k)) by {
                    if 0 <= r < k {
                        assert(ns[r].id != id);
                    }
                }
                assert(!(r > k));
            }
            return Option::Some(k);
        }
        k = k + 1;
    }
    proof {
        lemma_idx_of(ns, id);
    }
    Option::None
}

/// Decides whether the list holds an occurrence of `(label, other)`.
pub fn vec_has_edge(es: &Vec<Edge>, label: usize, other: u32) -> (b: bool)
    ensures
        b == has_edge(es@, label, other),
{
    let n = es.len();
    let mut k: usize = 0;
    while k < n
        invariant
            k <= n,
            n == es@.len(),
            forall|j: int| 0 <= j < k ==> !(es@[j].label == label && es@[j].other == other),
        decreases n - k,
    {
        let e = es[k];
        if e.label == label && e.other == other {
            return true;
        }
        k = k + 1;
    }
    false
}

/// Builds the list with every occurrence of `(label, other)` removed.
pub fn vec_remove_matching(es: &Vec<Edge>, label: usize, other: u32) -> (r: Vec<Edge>)
    ensures
        r@ == remove_matching(es@, label, other),
{
    let n = es.len();
    let mut r: Vec<Edge> = Vec::new();
    let mut k: usize = 0;
    while k < n
        invariant
            k <= n,
            n == es@.len(),
            r@ == remove_matching(es@.take(k as int), label, other),
        decreases n - k,
    {
        let e = es[k];
        proof {
            assert(es@.take(k + 1 as int).drop_last() =~= es@.take(k as int));
            assert(es@.take(k + 1 as int).last() == es@[k as int]);
        }
        if !(e.label == label && e.other == other) {
            r.push(e);
        }
        k = k + 1;
    }
    proof {
        assert(es@.take(n as int) =~= es@);
    }
    r
}

} // verus!

verus! {

/// Whether one cell of the expression arena refers only to cells below
/// itself.
pub open spec fn arena_cell_ok(c: RegexNode, i: int) -> bool {
    match c {
        RegexNode::Term(_) => true,
        RegexNode::Concat(x, y) => x < i && y < i,
        RegexNode::Star(x) => x < i,
        RegexNode::Alt(x, y) => x < i && y < i,
    }
}

/// Invariant: every arena cell refers only to cells below itself.
pub open spec fn arena_ok(a: Seq<RegexNode>) -> bool {
    forall|i: int| 0 <= i < a.len() ==> arena_cell_ok(#[trigger] a[i], i)
}

/// Invariant: no two nodes carry the same id.
pub open spec fn ids_distinct(ns: Seq<NodeV>) -> bool {
    forall|i: int, j: int| 0 <= i < j < ns.len() ==> ns[i].id != ns[j].id
}

/// The out-edge occurrence `k` of node `i` has its mirror in-edge
/// occurrence at its target node.
pub open spec fn out_mirror_ok(ns: Seq<NodeV>, i: int, k: int) -> bool {
    let e = ns[i].outs[k];
    idx_of(ns, e.other) >= 0 && has_edge(ns[idx_of(ns, e.other)].ins, e.label, ns[i].id)
}

/// The in-edge occurrence `k` of node `i` has its mirror out-edge
/// occurrence at its source node.
pub open spec fn in_mirror_ok(ns: Seq<NodeV>, i: int, k: int) -> bool {
    let e = ns[i].ins[k];
    idx_of(ns, e.other) >= 0 && has_edge(ns[idx_of(ns, e.other)].outs, e.label, ns[i].id)
}

/// Invariant: every out-edge occurrence is mirrored by an in-edge
/// occurrence with the same label at its target.
pub open spec fn mirrors_out(ns: Seq<NodeV>) -> bool {
    forall|i: int, k: int|
        0 <= i < ns.len() && 0 <= k < ns[i].outs.len() ==> #[trigger] out_mirror_ok(ns, i, k)
}

/// Invariant: every in-edge occurrence is mirrored by an out-edge
/// occurrence with the same label at its source.
pub open spec fn mirrors_in(ns: Seq<NodeV>) -> bool {
    forall|i: int, k: int|
        0 <= i < ns.len() && 0 <= k < ns[i].ins.len() ==> #[trigger] in_mirror_ok(ns, i, k)
}

/// Some other out-edge occurrence carries the same label as occurrence
/// `k1` of node `i1`.
pub open spec fn out_label_shared(ns: Seq<NodeV>, i1: int, k1: int) -> bool {
    exists|i2: int, k2: int|
        0 <= i2 < ns.len() && 0 <= k2 < ns[i2].outs.len() && !(i2 == i1 && k2 == k1)
            && ns[i2].outs[k2].label == ns[i1].outs[k1].label
}

/// Some other in-edge occurrence carries the same label as occurrence
/// `k1` of node `i1`.
pub open spec fn in_label_shared(ns: Seq<NodeV>, i1: int, k1: int) -> bool {
    exists|i2: int, k2: int|
        0 <= i2 < ns.len() && 0 <= k2 < ns[i2].ins.len() && !(i2 == i1 && k2 == k1)
            && ns[i2].ins[k2].label == ns[i1].ins[k1].label
}

/// Invariant: the label of every out-edge occurrence is unique, so a
/// label identifies its occurrence.
pub open spec fn out_labels_unique(ns: Seq<NodeV>) -> bool {
    forall|i: int, k: int|
        0 <= i < ns.len() && 0 <= k < ns[i].outs.len() ==> !#[trigger] out_label_shared(ns, i, k)
}

/// Invariant: the label of every in-edge occurrence is unique.
pub open spec fn in_labels_unique(ns: Seq<NodeV>) -> bool {
    forall|i: int, k: int|
        0 <= i < ns.len() && 0 <= k < ns[i].ins.len() ==> !#[trigger] in_label_shared(ns, i, k)
}

/// Invariant: every edge label is an index into the expression arena.
pub open spec fn labels_in_arena(g: GraphV) -> bool {
    &&& forall|i: int, k: int|
        0 <= i < g.nodes.len() && 0 <= k < g.nodes[i].outs.len() ==> (
        #[trigger] g.nodes[i].outs[k]).label < g.exprs.len()
    &&& forall|i: int, k: int|
        0 <= i < g.nodes.len() && 0 <= k < g.nodes[i].ins.len() ==> (
        #[trigger] g.nodes[i].ins[k]).label < g.exprs.len()
}

/// Invariant: the start node has no in-edges and the end node has no
/// out-edges.
pub open spec fn start_end_ok(ns: Seq<NodeV>) -> bool {
    &&& idx_of(ns, START_ID) >= 0 ==> ns[idx_of(ns, START_ID)].ins.len() == 0
    &&& idx_of(ns, END_ID) >= 0 ==> ns[idx_of(ns, END_ID)].outs.len() == 0
}

/// The graph invariant: distinct node ids, both adjacency directions
/// mirror each other occurrence for occurrence, labels identify their
/// occurrence, every label points into the arena, the arena is
/// topologically ordered, and the start and end nodes are source and
/// sink.
pub open spec fn wf(g: GraphV) -> bool {
    &&& ids_distinct(g.nodes)
    &&& mirrors_out(g.nodes)
    &&& mirrors_in(g.nodes)
    &&& out_labels_unique(g.nodes)
    &&& in_labels_unique(g.nodes)
    &&& labels_in_arena(g)
    &&& arena_ok(g.exprs)
    &&& start_end_ok(g.nodes)
}

/// The graph after adding an edge `from -> to` labelled with a fresh
/// `Term`: the term is appended to the arena and the occurrence is
/// recorded in both adjacency lists.
pub open spec fn add_edge_model(g: GraphV, from: u32, to: u32, t: EdgeType) -> GraphV {
    let j1 = idx_of(g.nodes, from);
    let j2 = idx_of(g.nodes, to);
    let label = g.exprs.len() as usize;
    let n1 = g.nodes.update(
        j1,
        NodeV { outs: g.nodes[j1].outs.push(Edge { label, other: to }), ..g.nodes[j1] },
    );
    let n2 = n1.update(j2, NodeV { ins: n1[j2].ins.push(Edge { label, other: from }), ..n1[j2] });
    GraphV { nodes: n2, exprs: g.exprs.push(RegexNode::Term(t)) }
}

/// The graph after removing the edge occurrence `label` between `from`
/// and `to` from both adjacency lists.
pub open spec fn remove_edge_model(g: GraphV, from: u32, to: u32, label: usize) -> GraphV {
    let j1 = idx_of(g.nodes, from);
    let n1 = g.nodes.update(
        j1,
        NodeV { outs: remove_matching(g.nodes[j1].outs, label, to), ..g.nodes[j1] },
    );
    let j2 = idx_of(n1, to);
    let n2 = n1.update(j2, NodeV { ins: remove_matching(n1[j2].ins, label, from), ..n1[j2] });
    GraphV { nodes: n2, exprs: g.exprs }
}

impl Graph {
    /// Creates a graph holding only the start and end nodes and no edges.
    pub fn new() -> (g: Graph)
        ensures
            g@.nodes.len() == 2,
            g@.nodes[0] == (NodeV {
                id: START_ID,
                access: Option::None,
                ins: Seq::empty(),
                outs: Seq::empty(),
            }),
            g@.nodes[1] == (NodeV {
                id: END_ID,
                access: Option::None,
                ins: Seq::empty(),
                outs: Seq::empty(),
            }),
            g@.exprs.len() == 0,
    {
        let mut nodes: Vec<Node> = Vec::new();
        nodes.push(Node { id: START_ID, access: Option::None, in_edges: Vec::new(), out_edges: Vec::new() });
        nodes.push(Node { id: END_ID, access: Option::None, in_edges: Vec::new(), out_edges: Vec::new() });
        let g = Graph { nodes, exprs: Vec::new() };
        proof {
            assert(g@.nodes[0] =~~= (NodeV {
                id: START_ID,
                access: Option::None,
                ins: Seq::empty(),
                outs: Seq::empty(),
            }));
            assert(g@.nodes[1] =~~= (NodeV {
                id: END_ID,
                access: Option::None,
                ins: Seq::empty(),
                outs: Seq::empty(),
            }));
        }
        g
    }

    /// Position of the node carrying `id`, if any.
    pub fn position_of(&self, id: u32) -> (r: Option<usize>)
        ensures
            (match r {
                Option::Some(j) => j < self@.nodes.len() && idx_of(self@.nodes, id) == j,
                Option::None => idx_of(self@.nodes, id) < 0,
            }),
    {
        find_node(&self.nodes, id)
    }

    /// Looks the node carrying `id` up.
    pub fn get_node(&self, id: u32) -> (r: Option<&Node>)
        ensures
            (match r {
                Option::Some(n) => idx_of(self@.nodes, id) >= 0 && n@ == self@.nodes[idx_of(
                    self@.nodes,
                    id,
                )],
                Option::None => idx_of(self@.nodes, id) < 0,
            }),
    {
        match find_node(&self.nodes, id) {
            Option::None => Option::None,
            Option::Some(j) => {
                proof {
                    assert(self@.nodes[j as int] == self.nodes@[j as int]@);
                }
                Option::Some(&self.nodes[j])
            },
        }
    }

    /// Inserts a node with no edges under a fresh id; refuses an id that
    /// is already present, leaving the graph unchanged.
    pub fn insert_node(&mut self, id: u32, access: Option<MemAccess>) -> (r: Result<
        (),
        GraphError,
    >)
        ensures
            (match r {
                Result::Ok(_) => idx_of(old(self)@.nodes, id) < 0 && final(self)@.nodes == old(
                    self,
                )@.nodes.push(
                    (NodeV {
                        id,
                        access: access_view(access),
                        ins: Seq::empty(),
                        outs: Seq::empty(),
                    }),
                ) && final(self)@.exprs == old(self)@.exprs,
                Result::Err(e) => e == GraphError::DuplicateNode && idx_of(old(self)@.nodes, id)
                    >= 0 && final(self)@ == old(self)@,
            }),
    {
        match find_node(&self.nodes, id) {
            Option::Some(_) => Result::Err(GraphError::DuplicateNode),
            Option::None => {
                let ghost before = self@.nodes;
                let n = Node { id, access, in_edges: Vec::new(), out_edges: Vec::new() };
                let ghost nv = n@;
                self.nodes.push(n);
                proof {
                    assert(self@.nodes =~~= before.push(nv));
                    assert(nv =~~= (NodeV {
                        id,
                        access: access_view(access),
                        ins: Seq::empty(),
                        outs: Seq::empty(),
                    }));
                }
                Result::Ok(())
            },
        }
    }

    /// Removes the node carrying `id` from the graph and hands it out.
    pub fn take_node(&mut self, id: u32) -> (r: Result<Node, GraphError>)
        ensures
            (match r {
                Result::Ok(n) => idx_of(old(self)@.nodes, id) >= 0 && n@ == old(self)@.nodes[idx_of(
                    old(self)@.nodes,
                    id,
                )] && final(self)@.nodes == old(self)@.nodes.remove(idx_of(old(self)@.nodes, id))
                    && final(self)@.exprs == old(self)@.exprs,
                Result::Err(e) => e == GraphError::NodeNotFound && idx_of(old(self)@.nodes, id) < 0
                    && final(self)@ == old(self)@,
            }),
    {
        match find_node(&self.nodes, id) {
            Option::None => Result::Err(GraphError::NodeNotFound),
            Option::Some(j) => {
                let ghost before = self@.nodes;
                let n = self.nodes.remove(j);
                proof {
                    assert(self@.nodes =~~= before.remove(j as int));
                }
                Result::Ok(n)
            },
        }
    }

    /// Reinserts a node at position `j` (the inverse of `take_node`).
    pub fn put_node(&mut self, j: usize, n: Node)
        requires
            j <= old(self)@.nodes.len(),
        ensures
            final(self)@.nodes == old(self)@.nodes.insert(j as int, n@),
            final(self)@.exprs == old(self)@.exprs,
    {
        let ghost before = self@.nodes;
        let ghost nv = n@;
        self.nodes.insert(j, n);
        proof {
            assert(self@.nodes =~~= before.insert(j as int, nv));
        }
    }

    /// Replaces the in-edge list of the node at position `j`.
    pub(crate) fn set_ins_at(&mut self, j: usize, ins: Vec<Edge>)
        requires
            j < old(self)@.nodes.len(),
        ensures
            final(self)@.nodes == old(self)@.nodes.update(
                j as int,
                (NodeV { ins: ins@, ..old(self)@.nodes[j as int] }),
            ),
            final(self)@.exprs == old(self)@.exprs,
    {
        let ghost before = self@.nodes;
        let ghost iv = ins@;
        let mut n = self.nodes.remove(j);
        n.in_edges = ins;
        self.nodes.insert(j, n);
        proof {
            assert(self@.nodes =~~= before.update(j as int, (NodeV { ins: iv, ..before[j as int] })));
        }
    }

    /// Replaces the out-edge list of the node at position `j`.
    pub(crate) fn set_outs_at(&mut self, j: usize, outs: Vec<Edge>)
        requires
            j < old(self)@.nodes.len(),
        ensures
            final(self)@.nodes == old(self)@.nodes.update(
                j as int,
                (NodeV { outs: outs@, ..old(self)@.nodes[j as int] }),
            ),
            final(self)@.exprs == old(self)@.exprs,
    {
        let ghost before = self@.nodes;
        let ghost ov = outs@;
        let mut n = self.nodes.remove(j);
        n.out_edges = outs;
        self.nodes.insert(j, n);
        proof {
            assert(self@.nodes =~~= before.update(j as int, (NodeV { outs: ov, ..before[j as int] })));
        }
    }

    /// Appends an in-edge occurrence to the node at position `j`.
    pub(crate) fn push_in_at(&mut self, j: usize, e: Edge)
        requires
            j < old(self)@.nodes.len(),
        ensures
            final(self)@.nodes == old(self)@.nodes.update(
                j as int,
                (NodeV { ins: old(self)@.nodes[j as int].ins.push(e), ..old(self)@.nodes[j as int] }),
            ),
            final(self)@.exprs == old(self)@.exprs,
    {
        let ghost before = self@.nodes;
        let mut n = self.nodes.remove(j);
        n.in_edges.push(e);
        self.nodes.insert(j, n);
        proof {
            assert(self@.nodes =~~= before.update(
                j as int,
                (NodeV { ins: before[j as int].ins.push(e), ..before[j as int] }),
            ));
        }
    }

    /// Appends an out-edge occurrence to the node at position `j`.
    pub(crate) fn push_out_at(&mut self, j: usize, e: Edge)
        requires
            j < old(self)@.nodes.len(),
        ensures
            final(self)@.nodes == old(self)@.nodes.update(
                j as int,
                (NodeV {
                    outs: old(self)@.nodes[j as int].outs.push(e),
                    ..old(self)@.nodes[j as int]
                }),
            ),
            final(self)@.exprs == old(self)@.exprs,
    {
        let ghost before = self@.nodes;
        let mut n = self.nodes.remove(j);
        n.out_edges.push(e);
        self.nodes.insert(j, n);
        proof {
            assert(self@.nodes =~~= before.update(
                j as int,
                (NodeV { outs: before[j as int].outs.push(e), ..before[j as int] }),
            ));
        }
    }

    /// Adds an edge `from -> to` carrying a fresh `Term` label to both
    /// endpoints' adjacency lists.  If either endpoint is missing the
    /// whole operation fails and the graph is unchanged.
    pub fn add_edge(&mut self, from: u32, to: u32, t: EdgeType) -> (r: Result<(), GraphError>)
        ensures
            (match r {
                Result::Ok(_) => idx_of(old(self)@.nodes, from) >= 0 && idx_of(
                    old(self)@.nodes,
                    to,
                ) >= 0 && final(self)@ == add_edge_model(old(self)@, from, to, t),
                Result::Err(e) => e == GraphError::NodeNotFound && (idx_of(old(self)@.nodes, from)
                    < 0 || idx_of(old(self)@.nodes, to) < 0) && final(self)@ == old(self)@,
            }),
    {
        let j1 = match find_node(&self.nodes, from) {
            Option::None => {
                return Result::Err(GraphError::NodeNotFound);
            },
            Option::Some(j) => j,
        };
        let j2 = match find_node(&self.nodes, to) {
            Option::None => {
                return Result::Err(GraphError::NodeNotFound);
            },
            Option::Some(j) => j,
        };
        let ghost g0 = self@;
        let label = self.exprs.len();
        self.exprs.push(RegexNode::Term(t));
        self.push_out_at(j1, Edge { label, other: to });
        self.push_in_at(j2, Edge { label, other: from });
        proof {
            assert(self@ =~~= add_edge_model(g0, from, to, t));
        }
        Result::Ok(())
    }

    /// Removes the edge occurrence `label` between `from` and `to` from
    /// both endpoints' adjacency lists atomically: if an endpoint is
    /// missing, or either list lacks the occurrence, the whole operation
    /// fails and the graph is unchanged.
    pub fn remove_edge(&mut self, from: u32, to: u32, label: usize) -> (r: Result<(), GraphError>)
        ensures
            (match r {
                Result::Ok(_) => idx_of(old(self)@.nodes, from) >= 0 && idx_of(
                    old(self)@.nodes,
                    to,
                ) >= 0 && has_edge(old(self)@.nodes[idx_of(old(self)@.nodes, from)].outs, label, to)
                    && has_edge(old(self)@.nodes[idx_of(old(self)@.nodes, to)].ins, label, from)
                    && final(self)@ == remove_edge_model(old(self)@, from, to, label),
                Result::Err(e) => final(self)@ == old(self)@ && ((e == GraphError::NodeNotFound
                    && (idx_of(old(self)@.nodes, from) < 0 || idx_of(old(self)@.nodes, to) < 0)) || (
                e == GraphError::Inconsistent && idx_of(old(self)@.nodes, from) >= 0 && idx_of(
                    old(self)@.nodes,
                    to,
                ) >= 0 && (!has_edge(
                    old(self)@.nodes[idx_of(old(self)@.nodes, from)].outs,
                    label,
                    to,
                ) || !has_edge(old(self)@.nodes[idx_of(old(self)@.nodes, to)].ins, label, from)))),
            }),
    {
        let j1 = match find_node(&self.nodes, from) {
            Option::None => {
                return Result::Err(GraphError::NodeNotFound);
            },
            Option::Some(j) => j,
        };
        let j2 = match find_node(&self.nodes, to) {
            Option::None => {
                return Result::Err(GraphError::NodeNotFound);
            },
            Option::Some(j) => j,
        };
        if !vec_has_edge(&self.nodes[j1].out_edges, label, to) {
            return Result::Err(GraphError::Inconsistent);
        }
        if !vec_has_edge(&self.nodes[j2].in_edges, label, from) {
            return Result::Err(GraphError::Inconsistent);
        }
        let ghost g0 = self@;
        let new_outs = vec_remove_matching(&self.nodes[j1].out_edges, label, to);
        self.set_outs_at(j1, new_outs);
        proof {
            lemma_idx_of_same_ids(g0.nodes, self@.nodes, to);
        }
        let new_ins = vec_remove_matching(&self.nodes[j2].in_edges, label, from);
        self.set_ins_at(j2, new_ins);
        proof {
            assert(self@ =~~= remove_edge_model(g0, from, to, label));
        }
        Result::Ok(())
    }
}

} // verus!

verus! {

/// Decides `ids_distinct`.
fn check_ids_distinct(nodes: &Vec<Node>) -> (b: bool)
    ensures
        b == ids_distinct(node_views(nodes@)),
{
    let ghost ns = node_views(nodes@);
    let n = nodes.len();
    let mut i: usize = 0;
    while i < n
        invariant
            i <= n,
            n == nodes@.len(),
            ns == node_views(nodes@),
            forall|x: int, y: int| 0 <= x < y < n && x < i ==> ns[x].id != ns[y].id,
        decreases n - i,
    {
        let mut j: usize = i + 1;
        while j < n
            invariant
                i < n,
                i + 1 <= j <= n,
                n == nodes@.len(),
                ns == node_views(nodes@),
                forall|x: int, y: int| 0 <= x < y < n && x < i ==> ns[x].id != ns[y].id,
                forall|y: int| i < y < j ==> ns[i as int].id != ns[y].id,
            decreases n - j,
        {
            if nodes[i].id == nodes[j].id {
                proof {
                    assert(ns[i as int] == nodes@[i as int]@);
                    assert(ns[j as int] == nodes@[j as int]@);
                    assert(ns[i as int].id == ns[j as int].id);
                    assert(!ids_distinct(ns));
                }
                return false;
            }
            proof {
                assert(ns[i as int] == nodes@[i as int]@);
                assert(ns[j as int] == nodes@[j as int]@);
            }
            j = j + 1;
        }
        i = i + 1;
    }
    true
}

/// Decides `mirrors_out`.
fn check_mirrors_out(nodes: &Vec<Node>) -> (b: bool)
    ensures
        b == mirrors_out(node_views(nodes@)),
{
    let ghost ns = node_views(nodes@);
    let n = nodes.len();
    let mut i: usize = 0;
    while i < n
        invariant
            i <= n,
            n == nodes@.len(),
            ns == node_views(nodes@),
            forall|x: int, k: int|
                0 <= x < i && 0 <= k < ns[x].outs.len() ==> #[trigger] out_mirror_ok(ns, x, k),
        decreases n - i,
    {
        proof {
            assert(ns[i as int] == nodes@[i as int]@);
        }
        let m = nodes[i].out_edges.len();
        let mut k: usize = 0;
        while k < m
            invariant
                i < n,
                k <= m,
                n == nodes@.len(),
                ns == node_views(nodes@),
                ns[i as int] == nodes@[i as int]@,
                m == ns[i as int].outs.len(),
                forall|x: int, k2: int|
                    0 <= x < i && 0 <= k2 < ns[x].outs.len() ==> #[trigger] out_mirror_ok(ns, x, k2),
                forall|k2: int| 0 <= k2 < k ==> #[trigger] out_mirror_ok(ns, i as int, k2),
            decreases m - k,
        {
            let e = nodes[i].out_edges[k];
            proof {
                assert(ns[i as int].outs[k as int] == e);
            }
            match find_node(nodes, e.other) {
                Option::None => {
                    proof {
                        assert(!out_mirror_ok(ns, i as int, k as int));
                        assert(!mirrors_out(ns));
                    }
                    return false;
                },
                Option::Some(j) => {
                    proof {
                        assert(ns[j as int] == nodes@[j as int]@);
                    }
                    if !vec_has_edge(&nodes[j].in_edges, e.label, nodes[i].id) {
                        proof {
                            assert(!out_mirror_ok(ns, i as int, k as int));
                            assert(!mirrors_out(ns));
                        }
                        return false;
                    }
                    proof {
                        assert(out_mirror_ok(ns, i as int, k as int));
                    }
                },
            }
            k = k + 1;
        }
        i = i + 1;
    }
    true
}

/// Decides `mirrors_in`.
fn check_mirrors_in(nodes: &Vec<Node>) -> (b: bool)
    ensures
        b == mirrors_in(node_views(nodes@)),
{
    let ghost ns = node_views(nodes@);
    let n = nodes.len();
    let mut i: usize = 0;
    while i < n
        invariant
            i <= n,
            n == nodes@.len(),
            ns == node_views(nodes@),
            forall|x: int, k: int|
                0 <= x < i && 0 <= k < ns[x].ins.len() ==> #[trigger] in_mirror_ok(ns, x, k),
        decreases n - i,
    {
        proof {
            assert(ns[i as int] == nodes@[i as int]@);
        }
        let m = nodes[i].in_edges.len();
        let mut k: usize = 0;
        while k < m
            invariant
                i < n,
                k <= m,
                n == nodes@.len(),
                ns == node_views(nodes@),
                ns[i as int] == nodes@[i as int]@,
                m == ns[i as int].ins.len(),
                forall|x: int, k2: int|
                    0 <= x < i && 0 <= k2 < ns[x].ins.len() ==> #[trigger] in_mirror_ok(ns, x, k2),
                forall|k2: int| 0 <= k2 < k ==> #[trigger] in_mirror_ok(ns, i as int, k2),
            decreases m - k,
        {
            let e = nodes[i].in_edges[k];
            proof {
                assert(ns[i as int].ins[k as int] == e);
            }
            match find_node(nodes, e.other) {
                Option::None => {
                    proof {
                        assert(!in_mirror_ok(ns, i as int, k as int));
                        assert(!mirrors_in(ns));
                    }
                    return false;
                },
                Option::Some(j) => {
                    proof {
                        assert(ns[j as int] == nodes@[j as int]@);
                    }
                    if !vec_has_edge(&nodes[j].out_edges, e.label, nodes[i].id) {
                        proof {
                            assert(!in_mirror_ok(ns, i as int, k as int));
                            assert(!mirrors_in(ns));
                        }
                        return false;
                    }
                    proof {
                        assert(in_mirror_ok(ns, i as int, k as int));
                    }
                },
            }
            k = k + 1;
        }
        i = i + 1;
    }
    true
}

} // verus!

verus! {

/// Decides `out_label_shared` for one occurrence.
fn out_label_elsewhere(nodes: &Vec<Node>, label: usize, i0: usize, k0: usize) -> (b: bool)
    requires
        i0 < nodes@.len(),
        k0 < node_views(nodes@)[i0 as int].outs.len(),
        label == node_views(nodes@)[i0 as int].outs[k0 as int].label,
    ensures
        b == out_label_shared(node_views(nodes@), i0 as int, k0 as int),
{
    let ghost ns = node_views(nodes@);
    let n = nodes.len();
    let mut i: usize = 0;
    while i < n
        invariant
            i <= n,
            n == nodes@.len(),
            ns == node_views(nodes@),
            i0 < n,
            k0 < ns[i0 as int].outs.len(),
            label == ns[i0 as int].outs[k0 as int].label,
            forall|x: int, y: int|
                0 <= x < i && 0 <= y < ns[x].outs.len() && !(x == i0 && y == k0) ==> (
                #[trigger] ns[x].outs[y]).label != label,
        decreases n - i,
    {
        proof {
            assert(ns[i as int] == nodes@[i as int]@);
        }
        let m = nodes[i].out_edges.len();
        let mut k: usize = 0;
        while k < m
            invariant
                i < n,
                k <= m,
                n == nodes@.len(),
                ns == node_views(nodes@),
                ns[i as int] == nodes@[i as int]@,
                m == ns[i as int].outs.len(),
                i0 < n,
                k0 < ns[i0 as int].outs.len(),
                label == ns[i0 as int].outs[k0 as int].label,
                forall|x: int, y: int|
                    0 <= x < i && 0 <= y < ns[x].outs.len() && !(x == i0 && y == k0) ==> (
                    #[trigger] ns[x].outs[y]).label != label,
                forall|y: int|
                    0 <= y < k && !(i == i0 && y == k0) ==> (#[trigger] ns[i as int].outs[y]).label
                        != label,
            decreases m - k,
        {
            if !(i == i0 && k == k0) {
                let e = nodes[i].out_edges[k];
                proof {
                    assert(ns[i as int].outs[k as int] == e);
                }
                if e.label == label {
                    proof {
                        assert(out_label_shared(ns, i0 as int, k0 as int));
                    }
                    return true;
                }
            }
            k = k + 1;
        }
        i = i + 1;
    }
    proof {
        if out_label_shared(ns, i0 as int, k0 as int) {
            let (i2, k2) = choose|i2: int, k2: int|
                0 <= i2 < ns.len() && 0 <= k2 < ns[i2].outs.len() && !(i2 == i0 && k2 == k0)
                    && ns[i2].outs[k2].label == ns[i0 as int].outs[k0 as int].label;
            assert((ns[i2].outs[k2]).label == label);
            assert(false);
        }
    }
    false
}

/// Decides `in_label_shared` for one occurrence.
fn in_label_elsewhere(nodes: &Vec<Node>, label: usize, i0: usize, k0: usize) -> (b: bool)
    requires
        i0 < nodes@.len(),
        k0 < node_views(nodes@)[i0 as int].ins.len(),
        label == node_views(nodes@)[i0 as int].ins[k0 as int].label,
    ensures
        b == in_label_shared(node_views(nodes@), i0 as int, k0 as int),
{
    let ghost ns = node_views(nodes@);
    let n = nodes.len();
    let mut i: usize = 0;
    while i < n
        invariant
            i <= n,
            n == nodes@.len(),
            ns == node_views(nodes@),
            i0 < n,
            k0 < ns[i0 as int].ins.len(),
            label == ns[i0 as int].ins[k0 as int].label,
            forall|x: int, y: int|
                0 <= x < i && 0 <= y < ns[x].ins.len() && !(x == i0 && y == k0) ==> (
                #[trigger] ns[x].ins[y]).label != label,
        decreases n - i,
    {
        proof {
            assert(ns[i as int] == nodes@[i as int]@);
        }
        let m = nodes[i].in_edges.len();
        let mut k: usize = 0;
        while k < m
            invariant
                i < n,
                k <= m,
                n == nodes@.len(),
                ns == node_views(nodes@),
                ns[i as int] == nodes@[i as int]@,
                m == ns[i as int].ins.len(),
                i0 < n,
                k0 < ns[i0 as int].ins.len(),
                label == ns[i0 as int].ins[k0 as int].label,
                forall|x: int, y: int|
                    0 <= x < i && 0 <= y < ns[x].ins.len() && !(x == i0 && y == k0) ==> (
                    #[trigger] ns[x].ins[y]).label != label,
                forall|y: int|
                    0 <= y < k && !(i == i0 && y == k0) ==> (#[trigger] ns[i as int].ins[y]).label
                        != label,
            decreases m - k,
        {
            if !(i == i0 && k == k0) {
                let e = nodes[i].in_edges[k];
                proof {
                    assert(ns[i as int].ins[k as int] == e);
                }
                if e.label == label {
                    proof {
                        assert(in_label_shared(ns, i0 as int, k0 as int));
                    }
                    return true;
                }
            }
            k = k + 1;
        }
        i = i + 1;
    }
    proof {
        if in_label_shared(ns, i0 as int, k0 as int) {
            let (i2, k2) = choose|i2: int, k2: int|
                0 <= i2 < ns.len() && 0 <= k2 < ns[i2].ins.len() && !(i2 == i0 && k2 == k0)
                    && ns[i2].ins[k2].label == ns[i0 as int].ins[k0 as int].label;
            assert((ns[i2].ins[k2]).label == label);
            assert(false);
        }
    }
    false
}

/// Decides `out_labels_unique` and `in_labels_unique` together.
fn check_labels_unique(nodes: &Vec<Node>) -> (b: bool)
    ensures
        b == (out_labels_unique(node_views(nodes@)) && in_labels_unique(node_views(nodes@))),
{
    let ghost ns = node_views(nodes@);
    let n = nodes.len();
    let mut i: usize = 0;
    while i < n
        invariant
            i <= n,
            n == nodes@.len(),
            ns == node_views(nodes@),
            forall|x: int, k: int|
                0 <= x < i && 0 <= k < ns[x].outs.len() ==> !#[trigger] out_label_shared(ns, x, k),
        decreases n - i,
    {
        proof {
            assert(ns[i as int] == nodes@[i as int]@);
        }
        let m = nodes[i].out_edges.len();
        let mut k: usize = 0;
        while k < m
            invariant
                i < n,
                k <= m,
                n == nodes@.len(),
                ns == node_views(nodes@),
                ns[i as int] == nodes@[i as int]@,
                m == ns[i as int].outs.len(),
                forall|x: int, k2: int|
                    0 <= x < i && 0 <= k2 < ns[x].outs.len() ==> !#[trigger] out_label_shared(
                        ns,
                        x,
                        k2,
                    ),
                forall|k2: int|
                    0 <= k2 < k ==> !#[trigger] out_label_shared(ns, i as int, k2),
            decreases m - k,
        {
            let e = nodes[i].out_edges[k];
            proof {
                assert(ns[i as int].outs[k as int] == e);
            }
            if out_label_elsewhere(nodes, e.label, i, k) {
                proof {
                    assert(!out_labels_unique(ns));
                }
                return false;
            }
            k = k + 1;
        }
        i = i + 1;
    }
    let mut i2: usize = 0;
    while i2 < n
        invariant
            i2 <= n,
            n == nodes@.len(),
            ns == node_views(nodes@),
            forall|x: int, k: int|
                0 <= x < n && 0 <= k < ns[x].outs.len() ==> !#[trigger] out_label_shared(ns, x, k),
            forall|x: int, k: int|
                0 <= x < i2 && 0 <= k < ns[x].ins.len() ==> !#[trigger] in_label_shared(ns, x, k),
        decreases n - i2,
    {
        proof {
            assert(ns[i2 as int] == nodes@[i2 as int]@);
        }
        let m = nodes[i2].in_edges.len();
        let mut k: usize = 0;
        while k < m
            invariant
                i2 < n,
                k <= m,
                n == nodes@.len(),
                ns == node_views(nodes@),
                ns[i2 as int] == nodes@[i2 as int]@,
                m == ns[i2 as int].ins.len(),
                forall|x: int, k2: int|
                    0 <= x < n && 0 <= k2 < ns[x].outs.len() ==> !#[trigger] out_label_shared(
                        ns,
                        x,
                        k2,
                    ),
                forall|x: int, k2: int|
                    0 <= x < i2 && 0 <= k2 < ns[x].ins.len() ==> !#[trigger] in_label_shared(
                        ns,
                        x,
                        k2,
                    ),
                forall|k2: int|
                    0 <= k2 < k ==> !#[trigger] in_label_shared(ns, i2 as int, k2),
            decreases m - k,
        {
            let e = nodes[i2].in_edges[k];
            proof {
                assert(ns[i2 as int].ins[k as int] == e);
            }
            if in_label_elsewhere(nodes, e.label, i2, k) {
                proof {
                    assert(!in_labels_unique(ns));
                }
                return false;
            }
            k = k + 1;
        }
        i2 = i2 + 1;
    }
    true
}

/// Decides `arena_ok`.
fn check_arena_ok(a: &Vec<RegexNode>) -> (b: bool)
    ensures
        b == arena_ok(a@),
{
    let n = a.len();
    let mut i: usize = 0;
    while i < n
        invariant
            i <= n,
            n == a@.len(),
            forall|x: int| 0 <= x < i ==> arena_cell_ok(#[trigger] a@[x], x),
        decreases n - i,
    {
        let ok = match a[i] {
            RegexNode::Term(_) => true,
            RegexNode::Concat(x, y) => x < i && y < i,
            RegexNode::Star(x) => x < i,
            RegexNode::Alt(x, y) => x < i && y < i,
        };
        if !ok {
            proof {
                assert(!arena_cell_ok(a@[i as int], i as int));
            }
            return false;
        }
        i = i + 1;
    }
    true
}

/// Decides `start_end_ok`.
fn check_start_end(nodes: &Vec<Node>) -> (b: bool)
    ensures
        b == start_end_ok(node_views(nodes@)),
{
    let ghost ns = node_views(nodes@);
    match find_node(nodes, START_ID) {
        Option::None => (),
        Option::Some(j) => {
            proof {
                assert(ns[j as int] == nodes@[j as int]@);
            }
            if nodes[j].in_edges.len() != 0 {
                return false;
            }
        },
    }
    match find_node(nodes, END_ID) {
        Option::None => (),
        Option::Some(j) => {
            proof {
                assert(ns[j as int] == nodes@[j as int]@);
            }
            if nodes[j].out_edges.len() != 0 {
                return false;
            }
        },
    }
    true
}

impl Graph {
    /// Decides `labels_in_arena`.
    fn check_labels_in_arena(&self) -> (b: bool)
        ensures
            b == labels_in_arena(self@),
    {
        let ghost ns = node_views(self.nodes@);
        let m = self.exprs.len();
        let n = self.nodes.len();
        let mut i: usize = 0;
        while i < n
            invariant
                i <= n,
                n == self.nodes@.len(),
                ns == node_views(self.nodes@),
                m == self.exprs@.len(),
                forall|x: int, k: int|
                    0 <= x < i && 0 <= k < ns[x].outs.len() ==> (#[trigger] ns[x].outs[k]).label
                        < m,
                forall|x: int, k: int|
                    0 <= x < i && 0 <= k < ns[x].ins.len() ==> (#[trigger] ns[x].ins[k]).label < m,
            decreases n - i,
        {
            proof {
                assert(ns[i as int] == self.nodes@[i as int]@);
            }
            let mo = self.nodes[i].out_edges.len();
            let mut k: usize = 0;
            while k < mo
                invariant
                    i < n,
                    k <= mo,
                    n == self.nodes@.len(),
                    ns == node_views(self.nodes@),
                    ns[i as int] == self.nodes@[i as int]@,
                    m == self.exprs@.len(),
                    mo == ns[i as int].outs.len(),
                    forall|k2: int|
                        0 <= k2 < k ==> (#[trigger] ns[i as int].outs[k2]).label < m,
                decreases mo - k,
            {
                let e = self.nodes[i].out_edges[k];
                proof {
                    assert(ns[i as int].outs[k as int] == e);
                }
                if e.label >= m {
                    proof {
                        assert(self@.nodes == ns);
                        assert(self@.nodes[i as int].outs[k as int] == e);
                        assert(!labels_in_arena(self@));
                    }
                    return false;
                }
                k = k + 1;
            }
            let mi = self.nodes[i].in_edges.len();
            let mut k2: usize = 0;
            while k2 < mi
                invariant
                    i < n,
                    k2 <= mi,
                    n == self.nodes@.len(),
                    ns == node_views(self.nodes@),
                    ns[i as int] == self.nodes@[i as int]@,
                    m == self.exprs@.len(),
                    mi == ns[i as int].ins.len(),
                    forall|k3: int|
                        0 <= k3 < k2 ==> (#[trigger] ns[i as int].ins[k3]).label < m,
                decreases mi - k2,
            {
                let e = self.nodes[i].in_edges[k2];
                proof {
                    assert(ns[i as int].ins[k2 as int] == e);
                }
                if e.label >= m {
                    proof {
                        assert(self@.nodes == ns);
                        assert(self@.nodes[i as int].ins[k2 as int] == e);
                        assert(!labels_in_arena(self@));
                    }
                    return false;
                }
                k2 = k2 + 1;
            }
            i = i + 1;
        }
        true
    }

    /// Decides the whole graph invariant `wf`: distinct ids, mirrored
    /// adjacency in both directions, occurrence-identifying labels,
    /// labels inside the arena, a topologically ordered arena, and
    /// source / sink start and end nodes.  A graph in which an edge
    /// stands in a node's out-edges without its counterpart in the
    /// target's in-edges is rejected here.
    pub fn check_invariant(&self) -> (b: bool)
        ensures
            b == wf(self@),
    {
        if !check_ids_distinct(&self.nodes) {
            return false;
        }
        if !check_mirrors_out(&self.nodes) {
            return false;
        }
        if !check_mirrors_in(&self.nodes) {
            return false;
        }
        if !check_labels_unique(&self.nodes) {
            return false;
        }
        if !self.check_labels_in_arena() {
            return false;
        }
        if !check_arena_ok(&self.exprs) {
            return false;
        }
        if !check_start_end(&self.nodes) {
            return false;
        }
        true
    }
}

} // verus!

verus! {

/// Appending a node does not change where existing ids are found; the
/// new id is found at the end if it was absent.
pub proof fn lemma_idx_of_push(ns: Seq<NodeV>, n: NodeV, t: u32)
    ensures
        idx_of(ns, t) >= 0 ==> idx_of(ns.push(n), t) == idx_of(ns, t),
        idx_of(ns, t) < 0 && n.id == t ==> idx_of(ns.push(n), t) == ns.len(),
        idx_of(ns, t) < 0 && n.id != t ==> idx_of(ns.push(n), t) < 0,
    decreases ns.len(),
{
    if ns.len() == 0 {
        assert(ns.push(n)[0] == n);
        assert(ns.push(n).len() == 1);
        assert(ns.push(n).skip(1) =~= Seq::<NodeV>::empty());
        assert(idx_of(Seq::<NodeV>::empty(), t) == -1);
    } else if ns[0].id != t {
        lemma_idx_of_push(ns.skip(1), n, t);
        assert(ns.push(n).skip(1) =~= ns.skip(1).push(n));
        assert(ns.push(n)[0] == ns[0]);
        assert(idx_of(ns.push(n).skip(1), t) == idx_of(ns.skip(1).push(n), t));
    } else {
        assert(ns.push(n)[0] == ns[0]);
    }
}

/// Inserting a node under a fresh id keeps the graph well formed.
pub proof fn lemma_insert_node_preserves_wf(g: GraphV, n: NodeV)
    requires
        wf(g),
        idx_of(g.nodes, n.id) < 0,
        n.ins.len() == 0,
        n.outs.len() == 0,
    ensures
        wf(GraphV { nodes: g.nodes.push(n), exprs: g.exprs }),
{
    let ns = g.nodes;
    let ns2 = ns.push(n);
    let g2 = GraphV { nodes: ns2, exprs: g.exprs };
    lemma_idx_of(ns, n.id);
    assert(ids_distinct(ns2)) by {
        assert(forall|i: int| 0 <= i < ns.len() ==> ns2[i] == ns[i]);
        assert(ns2[ns.len() as int] == n);
    }
    assert forall|i: int, k: int|
        0 <= i < ns2.len() && 0 <= k < ns2[i].outs.len() implies #[trigger] out_mirror_ok(
        ns2,
        i,
        k,
    ) by {
        assert(i < ns.len());
        assert(ns2[i] == ns[i]);
        assert(out_mirror_ok(ns, i, k));
        let e = ns[i].outs[k];
        lemma_idx_of(ns, e.other);
        lemma_idx_of_push(ns, n, e.other);
        assert(ns2[idx_of(ns2, e.other)] == ns[idx_of(ns, e.other)]);
    }
    assert forall|i: int, k: int|
        0 <= i < ns2.len() && 0 <= k < ns2[i].ins.len() implies #[trigger] in_mirror_ok(
        ns2,
        i,
        k,
    ) by {
        assert(i < ns.len());
        assert(ns2[i] == ns[i]);
        assert(in_mirror_ok(ns, i, k));
        let e = ns[i].ins[k];
        lemma_idx_of(ns, e.other);
        lemma_idx_of_push(ns, n, e.other);
        assert(ns2[idx_of(ns2, e.other)] == ns[idx_of(ns, e.other)]);
    }
    assert forall|i: int, k: int|
        0 <= i < ns2.len() && 0 <= k < ns2[i].outs.len() implies !#[trigger] out_label_shared(
        ns2,
        i,
        k,
    ) by {
        assert(ns2[i] == ns[i]);
        if out_label_shared(ns2, i, k) {
            let (i2, k2) = choose|i2: int, k2: int|
                0 <= i2 < ns2.len() && 0 <= k2 < ns2[i2].outs.len() && !(i2 == i && k2 == k)
                    && ns2[i2].outs[k2].label == ns2[i].outs[k].label;
            assert(i2 < ns.len());
            assert(ns2[i2] == ns[i2]);
            assert(out_label_shared(ns, i, k));
        }
    }
    assert forall|i: int, k: int|
        0 <= i < ns2.len() && 0 <= k < ns2[i].ins.len() implies !#[trigger] in_label_shared(
        ns2,
        i,
        k,
    ) by {
        assert(ns2[i] == ns[i]);
        if in_label_shared(ns2, i, k) {
            let (i2, k2) = choose|i2: int, k2: int|
                0 <= i2 < ns2.len() && 0 <= k2 < ns2[i2].ins.len() && !(i2 == i && k2 == k)
                    && ns2[i2].ins[k2].label == ns2[i].ins[k].label;
            assert(i2 < ns.len());
            assert(ns2[i2] == ns[i2]);
            assert(in_label_shared(ns, i, k));
        }
    }
    assert(labels_in_arena(g2)) by {
        assert(forall|i: int| 0 <= i < ns.len() ==> ns2[i] == ns[i]);
        assert(ns2[ns.len() as int] == n);
    }
    assert(start_end_ok(ns2)) by {
        lemma_idx_of_push(ns, n, START_ID);
        lemma_idx_of_push(ns, n, END_ID);
        lemma_idx_of(ns, START_ID);
        lemma_idx_of(ns, END_ID);
        assert(forall|i: int| 0 <= i < ns.len() ==> ns2[i] == ns[i]);
        assert(ns2[ns.len() as int] == n);
    }
}

} // verus!

verus! {

/// A pushed entry keeps every occurrence that was already there.
proof fn lemma_has_edge_push(es: Seq<Edge>, x: Edge, label: usize, other: u32)
    requires
        has_edge(es, label, other),
    ensures
        has_edge(es.push(x), label, other),
{
    let k = choose|k: int| 0 <= k < es.len() && es[k].label == label && es[k].other == other;
    assert(es.push(x)[k] == es[k]);
}

/// Adding an edge between two present nodes keeps the graph well
/// formed, as long as the edge neither enters the start node nor leaves
/// the end node.
pub proof fn lemma_add_edge_preserves_wf(g: GraphV, from: u32, to: u32, t: EdgeType)
    requires
        wf(g),
        g.exprs.len() <= usize::MAX,
        idx_of(g.nodes, from) >= 0,
        idx_of(g.nodes, to) >= 0,
        to != START_ID,
        from != END_ID,
    ensures
        wf(add_edge_model(g, from, to, t)),
{
    let ns = g.nodes;
    let j1 = idx_of(ns, from);
    let j2 = idx_of(ns, to);
    let label = g.exprs.len() as usize;
    lemma_idx_of(ns, from);
    lemma_idx_of(ns, to);
    let g2 = add_edge_model(g, from, to, t);
    let ns2 = g2.nodes;
    assert(ns2.len() == ns.len());
    assert(forall|i: int| 0 <= i < ns.len() ==> ns2[i].id == ns[i].id);
    assert(forall|i: int|
        0 <= i < ns.len() && i != j1 ==> #[trigger] ns2[i].outs == ns[i].outs);
    assert(ns2[j1].outs == ns[j1].outs.push(Edge { label, other: to }));
    assert(forall|i: int| 0 <= i < ns.len() && i != j2 ==> #[trigger] ns2[i].ins == ns[i].ins);
    assert(ns2[j2].ins == ns[j2].ins.push(Edge { label, other: from }));
    assert(ids_distinct(ns2));
    // Every label already in use lies below the fresh one.
    assert(forall|i: int, k: int|
        0 <= i < ns.len() && 0 <= k < ns[i].outs.len() ==> (#[trigger] ns[i].outs[k]).label
            < label);
    assert(forall|i: int, k: int|
        0 <= i < ns.len() && 0 <= k < ns[i].ins.len() ==> (#[trigger] ns[i].ins[k]).label < label);
    // Mirrors.
    assert forall|i: int, k: int|
        0 <= i < ns2.len() && 0 <= k < ns2[i].outs.len() implies #[trigger] out_mirror_ok(
        ns2,
        i,
        k,
    ) by {
        lemma_idx_of_same_ids(ns, ns2, ns2[i].outs[k].other);
        if i == j1 && k == ns[i].outs.len() {
            let e = ns2[i].outs[k];
            assert(e == (Edge { label, other: to }));
            assert(idx_of(ns2, to) == j2);
            assert(ns2[j2].ins[ns[j2 as int].ins.len() as int] == (Edge { label, other: from }));
            assert(has_edge(ns2[j2].ins, label, from));
            assert(ns2[i].id == from);
        } else {
            let e = ns2[i].outs[k];
            assert(e == ns[i].outs[k]);
            assert(out_mirror_ok(ns, i, k));
            let jt = idx_of(ns, e.other);
            lemma_idx_of(ns, e.other);
            if jt == j2 {
                lemma_has_edge_push(ns[jt].ins, (Edge { label, other: from }), e.label, ns[i].id);
            }
            assert(has_edge(ns2[jt].ins, e.label, ns2[i].id));
        }
    }
    assert forall|i: int, k: int|
        0 <= i < ns2.len() && 0 <= k < ns2[i].ins.len() implies #[trigger] in_mirror_ok(
        ns2,
        i,
        k,
    ) by {
        lemma_idx_of_same_ids(ns, ns2, ns2[i].ins[k].other);
        if i == j2 && k == ns[i].ins.len() {
            let e = ns2[i].ins[k];
            assert(e == (Edge { label, other: from }));
            assert(idx_of(ns2, from) == j1);
            assert(ns2[j1].outs[ns[j1 as int].outs.len() as int] == (Edge { label, other: to }));
            assert(has_edge(ns2[j1].outs, label, to));
            assert(ns2[i].id == to);
        } else {
            let e = ns2[i].ins[k];
            assert(e == ns[i].ins[k]);
            assert(in_mirror_ok(ns, i, k));
            let jt = idx_of(ns, e.other);
            lemma_idx_of(ns, e.other);
            if jt == j1 {
                lemma_has_edge_push(ns[jt].outs, (Edge { label, other: to }), e.label, ns[i].id);
            }
            assert(has_edge(ns2[jt].outs, e.label, ns2[i].id));
        }
    }
    // Label uniqueness.
    assert forall|i: int, k: int|
        0 <= i < ns2.len() && 0 <= k < ns2[i].outs.len() implies !#[trigger] out_label_shared(
        ns2,
        i,
        k,
    ) by {
        if out_label_shared(ns2, i, k) {
            let (i2, k2) = choose|i2: int, k2: int|
                0 <= i2 < ns2.len() && 0 <= k2 < ns2[i2].outs.len() && !(i2 == i && k2 == k)
                    && ns2[i2].outs[k2].label == ns2[i].outs[k].label;
            let fresh1 = i == j1 && k == ns[i].outs.len();
            let fresh2 = i2 == j1 && k2 == ns[i2].outs.len();
            if fresh1 && fresh2 {
                assert(false);
            } else if fresh1 {
                assert(ns2[i2].outs[k2] == ns[i2].outs[k2]);
                assert(ns[i2].outs[k2].label < label);
                assert(false);
            } else if fresh2 {
                assert(ns2[i].outs[k] == ns[i].outs[k]);
                assert(ns[i].outs[k].label < label);
                assert(false);
            } else {
                assert(ns2[i].outs[k] == ns[i].outs[k]);
                assert(ns2[i2].outs[k2] == ns[i2].outs[k2]);
                assert(out_label_shared(ns, i, k));
                assert(false);
            }
        }
    }
    assert forall|i: int, k: int|
        0 <= i < ns2.len() && 0 <= k < ns2[i].ins.len() implies !#[trigger] in_label_shared(
        ns2,
        i,
        k,
    ) by {
        if in_label_shared(ns2, i, k) {
            let (i2, k2) = choose|i2: int, k2: int|
                0 <= i2 < ns2.len() && 0 <= k2 < ns2[i2].ins.len() && !(i2 == i && k2 == k)
                    && ns2[i2].ins[k2].label == ns2[i].ins[k].label;
            let fresh1 = i == j2 && k == ns[i].ins.len();
            let fresh2 = i2 == j2 && k2 == ns[i2].ins.len();
            if fresh1 && fresh2 {
                assert(false);
            } else if fresh1 {
                assert(ns2[i2].ins[k2] == ns[i2].ins[k2]);
                assert(ns[i2].ins[k2].label < label);
                assert(false);
            } else if fresh2 {
                assert(ns2[i].ins[k] == ns[i].ins[k]);
                assert(ns[i].ins[k].label < label);
                assert(false);
            } else {
                assert(ns2[i].ins[k] == ns[i].ins[k]);
                assert(ns2[i2].ins[k2] == ns[i2].ins[k2]);
                assert(in_label_shared(ns, i, k));
                assert(false);
            }
        }
    }
    // Labels stay inside the grown arena.
    assert(g2.exprs.len() == g.exprs.len() + 1);
    assert forall|i: int, k: int|
        0 <= i < ns2.len() && 0 <= k < ns2[i].outs.len() implies (
    #[trigger] ns2[i].outs[k]).label < g2.exprs.len() by {
        if !(i == j1 && k == ns[i].outs.len()) {
            assert(ns2[i].outs[k] == ns[i].outs[k]);
        }
    }
    assert forall|i: int, k: int|
        0 <= i < ns2.len() && 0 <= k < ns2[i].ins.len() implies (
    #[trigger] ns2[i].ins[k]).label < g2.exprs.len() by {
        if !(i == j2 && k == ns[i].ins.len()) {
            assert(ns2[i].ins[k] == ns[i].ins[k]);
        }
    }
    // The arena stays topologically ordered.
    assert forall|i: int| 0 <= i < g2.exprs.len() implies arena_cell_ok(
        #[trigger] g2.exprs[i],
        i,
    ) by {
        if i < g.exprs.len() {
            assert(g2.exprs[i] == g.exprs[i]);
        } else {
            assert(g2.exprs[i] == RegexNode::Term(t));
        }
    }
    // Start stays a source, end stays a sink.
    assert(start_end_ok(ns2)) by {
        lemma_idx_of_same_ids(ns, ns2, START_ID);
        lemma_idx_of_same_ids(ns, ns2, END_ID);
        lemma_idx_of(ns, START_ID);
        lemma_idx_of(ns, END_ID);
        if idx_of(ns, START_ID) >= 0 {
            assert(ns[j2].id == to);
            assert(idx_of(ns, START_ID) != j2);
        }
        if idx_of(ns, END_ID) >= 0 {
            assert(ns[j1].id == from);
            assert(idx_of(ns, END_ID) != j1);
        }
    }
}

} // verus!

verus! {

/// A fresh graph - the start and end nodes alone, no edges - is well
/// formed.  Together with the preservation lemmas for `insert_node` and
/// `add_edge`, every graph built through those operations satisfies the
/// invariant.
pub proof fn lemma_new_graph_wf()
    ensures
        wf(
            GraphV {
                nodes: seq![
                    (NodeV {
                        id: START_ID,
                        access: Option::None,
                        ins: Seq::empty(),
                        outs: Seq::empty(),
                    }),
                    (NodeV {
                        id: END_ID,
                        access: Option::None,
                        ins: Seq::empty(),
                        outs: Seq::empty(),
                    }),
                ],
                exprs: Seq::empty(),
            },
        ),
{
    let start = NodeV {
        id: START_ID,
        access: Option::None,
        ins: Seq::empty(),
        outs: Seq::empty(),
    };
    let end = NodeV { id: END_ID, access: Option::None, ins: Seq::empty(), outs: Seq::empty() };
    let ns = seq![start, end];
    assert(ns[0] == start);
    assert(ns[1] == end);
    assert(ns.skip(1) =~= seq![end]);
    assert(seq![end][0] == end);
    assert(idx_of(ns, START_ID) == 0);
    assert(idx_of(seq![end], END_ID) == 0);
    assert(idx_of(ns, END_ID) == 1);
}

} // verus!
