use kat_reduce::ast::{EdgeType, Expr, RegexNode};
use kat_reduce::graph::{AccessKind, Edge, Graph, GraphError, Node, END_ID, START_ID};
use kat_reduce::reduce::{reduce_graph, remove_node, self_loop};

/// Whether the expression at `i` accepts the label word `w`, by direct
/// enumeration of splits (test helper; fine for short words).
fn accepts(arena: &Vec<RegexNode>, i: usize, w: &[EdgeType]) -> bool {
    match arena[i] {
        RegexNode::Term(t) => w.len() == 1 && w[0] == t,
        RegexNode::Concat(x, y) => {
            let mut s = 0;
            while s <= w.len() {
                if accepts(arena, x, &w[..s]) && accepts(arena, y, &w[s..]) {
                    return true;
                }
                s += 1;
            }
            false
        }
        RegexNode::Alt(x, y) => accepts(arena, x, w) || accepts(arena, y, w),
        RegexNode::Star(x) => {
            if w.is_empty() {
                return true;
            }
            let mut s = 1;
            while s <= w.len() {
                if accepts(arena, x, &w[..s]) && accepts(arena, i, &w[s..]) {
                    return true;
                }
                s += 1;
            }
            false
        }
    }
}

/// All words over `alpha` up to length 4, as flat vectors.
fn words(alpha: &[EdgeType]) -> Vec<Vec<EdgeType>> {
    let mut out: Vec<Vec<EdgeType>> = vec![vec![]];
    let mut layer: Vec<Vec<EdgeType>> = vec![vec![]];
    let mut len = 0;
    while len < 4 {
        let mut next: Vec<Vec<EdgeType>> = Vec::new();
        for w in &layer {
            for t in alpha {
                let mut w2 = w.clone();
                w2.push(*t);
                next.push(w2);
            }
        }
        out.extend(next.iter().cloned());
        layer = next;
        len += 1;
    }
    out
}

#[test]
fn trivial_path_renders_po() {
    let mut g = Graph::new();
    g.add_edge(START_ID, END_ID, EdgeType::Po).unwrap();
    let e = reduce_graph(g).unwrap().unwrap();
    assert_eq!(e.render(), b"po".to_vec());
}

#[test]
fn concatenation_renders_porf() {
    let mut g = Graph::new();
    g.insert_node(1, None).unwrap();
    g.add_edge(START_ID, 1, EdgeType::Po).unwrap();
    g.add_edge(1, END_ID, EdgeType::Rf).unwrap();
    let e = reduce_graph(g).unwrap().unwrap();
    assert_eq!(e.render(), b"porf".to_vec());
}

#[test]
fn self_loop_renders_poco_star_fr() {
    let mut g = Graph::new();
    g.insert_node(1, None).unwrap();
    g.add_edge(START_ID, 1, EdgeType::Po).unwrap();
    g.add_edge(1, 1, EdgeType::Co).unwrap();
    g.add_edge(1, END_ID, EdgeType::Fr).unwrap();
    let e = reduce_graph(g).unwrap().unwrap();
    assert_eq!(e.render(), b"poco*fr".to_vec());
    // The eliminator must produce Concat(Concat(po, Star(co)), fr).
    match e.arena[e.root] {
        RegexNode::Concat(x, y) => {
            assert_eq!(e.arena[y], RegexNode::Term(EdgeType::Fr));
            match e.arena[x] {
                RegexNode::Concat(p, s) => {
                    assert_eq!(e.arena[p], RegexNode::Term(EdgeType::Po));
                    match e.arena[s] {
                        RegexNode::Star(c) => {
                            assert_eq!(e.arena[c], RegexNode::Term(EdgeType::Co));
                        }
                        _ => panic!("expected a star over co"),
                    }
                }
                _ => panic!("expected po before the star"),
            }
        }
        _ => panic!("expected a concatenation at the root"),
    }
}

#[test]
fn alternation_at_merge_renders_poco_or_rfco() {
    let mut g = Graph::new();
    g.insert_node(1, None).unwrap();
    g.add_edge(START_ID, 1, EdgeType::Po).unwrap();
    g.add_edge(START_ID, 1, EdgeType::Rf).unwrap();
    g.add_edge(1, END_ID, EdgeType::Co).unwrap();
    // The eliminator leaves two parallel merged edges; only the final
    // fold joins them with an alternation.
    let mut g2 = g;
    remove_node(1, &mut g2).unwrap();
    let j = g2.position_of(START_ID).unwrap();
    assert_eq!(g2.nodes[j].out_edges.len(), 2);
    let e = reduce_graph(g2).unwrap().unwrap();
    assert_eq!(e.render(), b"poco|rfco".to_vec());
}

#[test]
fn two_self_loops_fold_into_one_starred_alternation() {
    let mut exprs = vec![
        RegexNode::Term(EdgeType::Dmb),
        RegexNode::Term(EdgeType::Lwsync),
    ];
    let mut node = Node {
        id: 7,
        access: None,
        in_edges: vec![
            Edge { label: 0, other: 7 },
            Edge { label: 1, other: 7 },
        ],
        out_edges: vec![
            Edge { label: 0, other: 7 },
            Edge { label: 1, other: 7 },
        ],
    };
    let star = self_loop(&mut node, &mut exprs).unwrap().unwrap();
    assert_eq!(exprs[star], RegexNode::Star(2));
    assert_eq!(exprs[2], RegexNode::Alt(0, 1));
    assert!(node.in_edges.is_empty());
    assert!(node.out_edges.is_empty());
    let e = Expr { arena: exprs, root: star };
    assert_eq!(e.render(), b"(dmb|lwsync)*".to_vec());
}

#[test]
fn no_self_loop_returns_none() {
    let mut exprs = vec![RegexNode::Term(EdgeType::Po)];
    let mut node = Node {
        id: 3,
        access: None,
        in_edges: vec![Edge { label: 0, other: 0 }],
        out_edges: vec![],
    };
    assert!(self_loop(&mut node, &mut exprs).unwrap().is_none());
    assert_eq!(node.in_edges.len(), 1);
}

#[test]
fn unmirrored_self_loop_is_rejected() {
    let mut exprs = vec![RegexNode::Term(EdgeType::Co)];
    let mut node = Node {
        id: 3,
        access: None,
        in_edges: vec![],
        out_edges: vec![Edge { label: 0, other: 3 }],
    };
    assert_eq!(
        self_loop(&mut node, &mut exprs),
        Err(GraphError::Inconsistent)
    );
    // Nothing was changed.
    assert_eq!(node.out_edges.len(), 1);
    assert_eq!(exprs.len(), 1);
}

#[test]
fn inconsistent_graph_is_rejected_by_the_invariant_check() {
    // An edge stands in the start node's out-edges but not in the
    // target's in-edges.
    let g = Graph {
        nodes: vec![
            Node {
                id: START_ID,
                access: None,
                in_edges: vec![],
                out_edges: vec![Edge { label: 0, other: 1 }],
            },
            Node {
                id: 1,
                access: None,
                in_edges: vec![],
                out_edges: vec![],
            },
            Node {
                id: END_ID,
                access: None,
                in_edges: vec![],
                out_edges: vec![],
            },
        ],
        exprs: vec![RegexNode::Term(EdgeType::Po)],
    };
    assert!(!g.check_invariant());
}

#[test]
fn inconsistent_graph_is_rejected_during_elimination() {
    // Node 1 records an in-edge from the start node, but the start node
    // does not record the matching out-edge.
    let mut g = Graph {
        nodes: vec![
            Node {
                id: START_ID,
                access: None,
                in_edges: vec![],
                out_edges: vec![],
            },
            Node {
                id: 1,
                access: None,
                in_edges: vec![Edge { label: 0, other: START_ID }],
                out_edges: vec![Edge { label: 1, other: END_ID }],
            },
            Node {
                id: END_ID,
                access: None,
                in_edges: vec![Edge { label: 1, other: 1 }],
                out_edges: vec![],
            },
        ],
        exprs: vec![RegexNode::Term(EdgeType::Po), RegexNode::Term(EdgeType::Rf)],
    };
    assert!(!g.check_invariant());
    assert_eq!(remove_node(1, &mut g), Err(GraphError::Inconsistent));
    // The rejection leaves the graph as it was.
    assert_eq!(g.nodes.len(), 3);
    assert_eq!(g.exprs.len(), 2);
}

#[test]
fn consistent_graph_passes_the_invariant_check() {
    let mut g = Graph::new();
    g.insert_node(1, None).unwrap();
    g.add_edge(START_ID, 1, EdgeType::Po).unwrap();
    g.add_edge(1, 1, EdgeType::Co).unwrap();
    g.add_edge(1, END_ID, EdgeType::Fr).unwrap();
    assert!(g.check_invariant());
}

#[test]
fn rendering_is_idempotent() {
    let mut g = Graph::new();
    g.insert_node(1, None).unwrap();
    g.add_edge(START_ID, 1, EdgeType::Po).unwrap();
    g.add_edge(1, 1, EdgeType::Co).unwrap();
    g.add_edge(1, END_ID, EdgeType::Fr).unwrap();
    let e = reduce_graph(g).unwrap().unwrap();
    let first = e.render();
    let second = e.render();
    let third = e.render();
    assert_eq!(first, second);
    assert_eq!(second, third);
}

#[test]
fn elimination_order_does_not_change_the_language() {
    // The same edges, with the two interior nodes inserted in opposite
    // orders, so that the reducer eliminates them in opposite orders.
    let mut a = Graph::new();
    a.insert_node(1, None).unwrap();
    a.insert_node(2, None).unwrap();
    let mut b = Graph::new();
    b.insert_node(2, None).unwrap();
    b.insert_node(1, None).unwrap();
    for g in [&mut a, &mut b] {
        g.add_edge(START_ID, 1, EdgeType::Po).unwrap();
        g.add_edge(START_ID, 2, EdgeType::Rf).unwrap();
        g.add_edge(1, 1, EdgeType::Co).unwrap();
        g.add_edge(1, 2, EdgeType::Dmb).unwrap();
        g.add_edge(1, END_ID, EdgeType::Fr).unwrap();
        g.add_edge(2, END_ID, EdgeType::Data).unwrap();
    }
    let ea = reduce_graph(a).unwrap().unwrap();
    let eb = reduce_graph(b).unwrap().unwrap();
    let alpha = [
        EdgeType::Po,
        EdgeType::Rf,
        EdgeType::Co,
        EdgeType::Dmb,
        EdgeType::Fr,
        EdgeType::Data,
    ];
    for w in words(&alpha) {
        assert_eq!(
            accepts(&ea.arena, ea.root, &w),
            accepts(&eb.arena, eb.root, &w),
            "the two elimination orders disagree on a word"
        );
    }
    // Sanity: the language is not empty.
    assert!(accepts(
        &ea.arena,
        ea.root,
        &[EdgeType::Po, EdgeType::Fr]
    ));
    assert!(accepts(
        &ea.arena,
        ea.root,
        &[EdgeType::Rf, EdgeType::Data]
    ));
    assert!(!accepts(&ea.arena, ea.root, &[EdgeType::Po]));
}

#[test]
fn empty_reduction_is_a_distinct_outcome() {
    let g = Graph::new();
    assert!(reduce_graph(g).unwrap().is_none());
}

#[test]
fn eliminating_the_start_or_end_node_is_refused() {
    let mut g = Graph::new();
    assert_eq!(remove_node(START_ID, &mut g), Err(GraphError::NotInterior));
    assert_eq!(remove_node(END_ID, &mut g), Err(GraphError::NotInterior));
    assert_eq!(remove_node(9, &mut g), Err(GraphError::NodeNotFound));
}

#[test]
fn edge_operations_are_atomic() {
    let mut g = Graph::new();
    // Adding an edge with a missing endpoint changes nothing.
    assert_eq!(g.add_edge(START_ID, 5, EdgeType::Po), Err(GraphError::NodeNotFound));
    assert_eq!(g.nodes[0].out_edges.len(), 0);
    assert_eq!(g.exprs.len(), 0);
    // A duplicate node id is refused.
    g.insert_node(1, None).unwrap();
    assert_eq!(g.insert_node(1, None), Err(GraphError::DuplicateNode));
    // Removing an edge occurrence that is not there is an inconsistency.
    g.add_edge(START_ID, 1, EdgeType::Po).unwrap();
    assert_eq!(g.remove_edge(START_ID, 1, 7), Err(GraphError::Inconsistent));
    assert_eq!(g.nodes[0].out_edges.len(), 1);
    // Removing the real occurrence clears both sides.
    g.remove_edge(START_ID, 1, 0).unwrap();
    assert_eq!(g.nodes[0].out_edges.len(), 0);
    assert!(g.get_node(1).unwrap().in_edges.is_empty());
}

#[test]
fn access_kind_is_kept_on_nodes() {
    let mut g = Graph::new();
    g.insert_node(
        4,
        Some(kat_reduce::graph::MemAccess {
            kind: AccessKind::Write,
            addr: b"x".to_vec(),
            value: 9,
        }),
    )
    .unwrap();
    let n = g.get_node(4).unwrap();
    match &n.access {
        Some(a) => {
            assert!(matches!(a.kind, AccessKind::Write));
            assert_eq!(a.addr, b"x".to_vec());
            assert_eq!(a.value, 9);
        }
        None => panic!("the access was dropped"),
    }
}

#[test]
fn elimination_can_create_a_self_loop_at_a_neighbour() {
    // A two-node cycle: eliminating node 1 rewires the cycle into a
    // self-loop at node 2, whose predecessor and successor are the same
    // node; eliminating node 2 then folds that loop into a star.
    let mut g = Graph::new();
    g.insert_node(1, None).unwrap();
    g.insert_node(2, None).unwrap();
    g.add_edge(START_ID, 1, EdgeType::Po).unwrap();
    g.add_edge(1, 2, EdgeType::Rf).unwrap();
    g.add_edge(2, 1, EdgeType::Co).unwrap();
    g.add_edge(1, END_ID, EdgeType::Fr).unwrap();
    let e = reduce_graph(g).unwrap().unwrap();
    assert_eq!(e.render(), b"pofr|porf(corf)*cofr".to_vec());
}

#[test]
fn parallel_edges_produce_the_full_cross_product() {
    // Two predecessor edges and two successor edges of the eliminated
    // node yield four distinct merged edges, not a pre-merged pair.
    let mut g = Graph::new();
    g.insert_node(1, None).unwrap();
    g.add_edge(START_ID, 1, EdgeType::Po).unwrap();
    g.add_edge(START_ID, 1, EdgeType::Rf).unwrap();
    g.add_edge(1, END_ID, EdgeType::Co).unwrap();
    g.add_edge(1, END_ID, EdgeType::Fr).unwrap();
    let e = reduce_graph(g).unwrap().unwrap();
    assert_eq!(e.render(), b"poco|pofr|rfco|rffr".to_vec());
}

#[test]
fn taking_and_reinserting_a_node_restores_the_graph() {
    let mut g = Graph::new();
    g.insert_node(1, None).unwrap();
    g.add_edge(START_ID, 1, EdgeType::Po).unwrap();
    assert!(g.check_invariant());
    let n = g.take_node(1).unwrap();
    assert_eq!(n.id, 1);
    assert_eq!(g.nodes.len(), 2);
    assert!(matches!(g.take_node(1), Err(GraphError::NodeNotFound)));
    g.put_node(2, n);
    assert_eq!(g.nodes.len(), 3);
    assert!(g.check_invariant());
}
