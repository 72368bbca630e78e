use kat_reduce::ast::EdgeType;
use kat_reduce::graph::{AccessKind, END_ID, START_ID};
use kat_reduce::parse::{parse_edge, parse_edges, parse_graph, ParseError};
use kat_reduce::reduce::reduce_graph;

fn lines(texts: &[&str]) -> Vec<Vec<u8>> {
    let mut out: Vec<Vec<u8>> = Vec::new();
    for t in texts {
        out.push(t.as_bytes().to_vec());
    }
    out
}

#[test]
fn single_thread_pipeline_renders_popo() {
    let input = lines(&["init | po -> 1", "$1: Wx=42"]);
    let g = parse_graph(&input).unwrap();
    assert!(g.check_invariant());
    let e = reduce_graph(g).unwrap().unwrap();
    assert_eq!(e.render(), b"popo".to_vec());
}

#[test]
fn parsed_access_fields_are_kept() {
    let input = lines(&["init | po -> 1", "1: Rfoo=7 | co -> 4294967295"]);
    let g = parse_graph(&input).unwrap();
    let n = g.get_node(1).unwrap();
    let a = n.access.as_ref().unwrap();
    assert!(matches!(a.kind, AccessKind::Read));
    assert_eq!(a.addr, b"foo".to_vec());
    assert_eq!(a.value, 7);
    assert_eq!(n.out_edges.len(), 1);
    assert_eq!(n.out_edges[0].other, END_ID);
    assert_eq!(n.in_edges.len(), 1);
    assert_eq!(n.in_edges[0].other, START_ID);
}

#[test]
fn two_threads_render_an_alternation() {
    let input = lines(&["init | po -> 1 | rf -> 2", "$1: Ra=0", "$2: Wb=1"]);
    let g = parse_graph(&input).unwrap();
    assert!(g.check_invariant());
    let e = reduce_graph(g).unwrap().unwrap();
    assert_eq!(e.render(), b"popo|rfpo".to_vec());
}

#[test]
fn empty_input_is_reported() {
    let input: Vec<Vec<u8>> = Vec::new();
    assert_eq!(parse_graph(&input).unwrap_err(), ParseError::Empty);
}

#[test]
fn missing_init_token_is_malformed() {
    let input = lines(&["garbage line"]);
    assert_eq!(parse_graph(&input).unwrap_err(), ParseError::Malformed);
}

#[test]
fn unknown_relation_token_is_fatal() {
    let input = lines(&["init | zz -> 1", "$1: Ra=0"]);
    assert_eq!(parse_graph(&input).unwrap_err(), ParseError::BadEdgeType);
}

#[test]
fn tilde_relation_token_is_fatal() {
    let input = lines(&["init | ~ -> 1", "$1: Ra=0"]);
    assert_eq!(parse_graph(&input).unwrap_err(), ParseError::BadEdgeType);
}

#[test]
fn oversized_edge_target_is_fatal() {
    let input = lines(&["init | po -> 99999999999", "$1: Ra=0"]);
    assert_eq!(parse_graph(&input).unwrap_err(), ParseError::BadNumber);
}

#[test]
fn oversized_event_id_is_fatal() {
    let input = lines(&["init | po -> 1", "$99999999999: Ra=0"]);
    assert_eq!(parse_graph(&input).unwrap_err(), ParseError::BadNumber);
}

#[test]
fn oversized_value_is_fatal() {
    let input = lines(&["init | po -> 1", "$1: Ra=99999999999"]);
    assert_eq!(parse_graph(&input).unwrap_err(), ParseError::BadNumber);
}

#[test]
fn unknown_access_kind_is_malformed() {
    let input = lines(&["init | po -> 1", "$1: Xa=0"]);
    assert_eq!(parse_graph(&input).unwrap_err(), ParseError::Malformed);
}

#[test]
fn dangling_edge_target_is_reported() {
    let input = lines(&["init | po -> 7", "$1: Ra=0"]);
    assert_eq!(parse_graph(&input).unwrap_err(), ParseError::MissingTarget);
}

#[test]
fn trailing_text_after_edges_is_ignored() {
    let input = lines(&["init | po -> 1 and some trailing words", "$1: Ra=0"]);
    let g = parse_graph(&input).unwrap();
    let e = reduce_graph(g).unwrap().unwrap();
    assert_eq!(e.render(), b"popo".to_vec());
}

#[test]
fn later_line_replaces_an_earlier_id() {
    let input = lines(&["init | po -> 1", "1: Ra=0 | fr -> 4294967295", "$1: Wb=5"]);
    let g = parse_graph(&input).unwrap();
    // Three nodes: start, 1, end; node 1 carries the second definition.
    assert_eq!(g.nodes.len(), 3);
    let n = g.get_node(1).unwrap();
    let a = n.access.as_ref().unwrap();
    assert!(matches!(a.kind, AccessKind::Write));
    assert_eq!(a.addr, b"b".to_vec());
}

#[test]
fn parse_edge_reads_one_suffix() {
    let l = b" | lwsync -> 12 | co -> 3".to_vec();
    let r = parse_edge(&l, 0).unwrap().unwrap();
    assert_eq!(r.0, EdgeType::Lwsync);
    assert_eq!(r.1, 12);
    let r2 = parse_edge(&l, r.2).unwrap().unwrap();
    assert_eq!(r2.0, EdgeType::Co);
    assert_eq!(r2.1, 3);
    assert!(parse_edge(&l, r2.2).unwrap().is_none());
}

#[test]
fn parse_edges_reads_the_whole_list() {
    let l = b" | po -> 1 | rf -> 2 | dmb -> 3 | addr -> 4 | ctrl -> 5 | ctrlisb -> 6 | data -> 7 | fr -> 8".to_vec();
    let es = parse_edges(&l, 0).unwrap();
    assert_eq!(
        es,
        vec![
            (EdgeType::Po, 1),
            (EdgeType::Rf, 2),
            (EdgeType::Dmb, 3),
            (EdgeType::Addr, 4),
            (EdgeType::Ctrl, 5),
            (EdgeType::Ctrlisb, 6),
            (EdgeType::Data, 7),
            (EdgeType::Fr, 8),
        ]
    );
}

#[test]
fn explicit_self_loop_in_the_input_round_trips() {
    let input = lines(&["init | po -> 1", "$1: Wx=1 | co -> 1"]);
    let g = parse_graph(&input).unwrap();
    assert!(g.check_invariant());
    let e = reduce_graph(g).unwrap().unwrap();
    assert_eq!(e.render(), b"poco*po".to_vec());
}

#[test]
fn two_self_loops_from_the_input_fold_into_one_star() {
    let input = lines(&["init | po -> 1", "$1: Wx=1 | dmb -> 1 | lwsync -> 1"]);
    let g = parse_graph(&input).unwrap();
    let e = reduce_graph(g).unwrap().unwrap();
    assert_eq!(e.render(), b"po(dmb|lwsync)*po".to_vec());
}
