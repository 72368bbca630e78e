use kat_reduce::ast::{EdgeType, Expr, RegexNode};

fn term(t: EdgeType) -> Expr {
    Expr { arena: vec![RegexNode::Term(t)], root: 0 }
}

#[test]
fn every_relation_renders_to_its_lowercase_token() {
    assert_eq!(term(EdgeType::Po).render(), b"po".to_vec());
    assert_eq!(term(EdgeType::Rf).render(), b"rf".to_vec());
    assert_eq!(term(EdgeType::Dmb).render(), b"dmb".to_vec());
    assert_eq!(term(EdgeType::Lwsync).render(), b"lwsync".to_vec());
    assert_eq!(term(EdgeType::Addr).render(), b"addr".to_vec());
    assert_eq!(term(EdgeType::Ctrl).render(), b"ctrl".to_vec());
    assert_eq!(term(EdgeType::Ctrlisb).render(), b"ctrlisb".to_vec());
    assert_eq!(term(EdgeType::Co).render(), b"co".to_vec());
    assert_eq!(term(EdgeType::Data).render(), b"data".to_vec());
    assert_eq!(term(EdgeType::Fr).render(), b"fr".to_vec());
}

#[test]
fn alternation_operands_of_a_concatenation_are_parenthesized() {
    // (po|rf)(co|fr)
    let e = Expr {
        arena: vec![
            RegexNode::Term(EdgeType::Po),
            RegexNode::Term(EdgeType::Rf),
            RegexNode::Alt(0, 1),
            RegexNode::Term(EdgeType::Co),
            RegexNode::Term(EdgeType::Fr),
            RegexNode::Alt(3, 4),
            RegexNode::Concat(2, 5),
        ],
        root: 6,
    };
    assert_eq!(e.render(), b"(po|rf)(co|fr)".to_vec());
}

#[test]
fn star_parenthesizes_everything_but_a_bare_term() {
    let starred_term = Expr {
        arena: vec![RegexNode::Term(EdgeType::Po), RegexNode::Star(0)],
        root: 1,
    };
    assert_eq!(starred_term.render(), b"po*".to_vec());
    let starred_concat = Expr {
        arena: vec![
            RegexNode::Term(EdgeType::Po),
            RegexNode::Term(EdgeType::Rf),
            RegexNode::Concat(0, 1),
            RegexNode::Star(2),
        ],
        root: 3,
    };
    assert_eq!(starred_concat.render(), b"(porf)*".to_vec());
}

#[test]
fn alternation_adds_no_parentheses_of_its_own() {
    let e = Expr {
        arena: vec![
            RegexNode::Term(EdgeType::Po),
            RegexNode::Term(EdgeType::Rf),
            RegexNode::Term(EdgeType::Co),
            RegexNode::Alt(0, 1),
            RegexNode::Alt(3, 2),
        ],
        root: 4,
    };
    assert_eq!(e.render(), b"po|rf|co".to_vec());
}

#[test]
fn shared_subexpressions_render_consistently() {
    // The same starred loop cell is referenced from two labels.
    let e = Expr {
        arena: vec![
            RegexNode::Term(EdgeType::Co),
            RegexNode::Star(0),
            RegexNode::Term(EdgeType::Po),
            RegexNode::Concat(2, 1),
            RegexNode::Term(EdgeType::Rf),
            RegexNode::Concat(4, 1),
            RegexNode::Alt(3, 5),
        ],
        root: 6,
    };
    assert_eq!(e.render(), b"poco*|rfco*".to_vec());
}

#[test]
fn rendering_the_same_tree_twice_is_identical() {
    let e = Expr {
        arena: vec![
            RegexNode::Term(EdgeType::Dmb),
            RegexNode::Term(EdgeType::Lwsync),
            RegexNode::Alt(0, 1),
            RegexNode::Star(2),
        ],
        root: 3,
    };
    assert_eq!(e.render(), e.render());
    assert_eq!(e.render(), b"(dmb|lwsync)*".to_vec());
}
