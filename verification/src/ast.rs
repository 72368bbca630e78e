//! The regular-expression AST over relation labels, and its renderer.
//!
//! Expressions live in an arena: a vector of [`RegexNode`]s in which a
//! node refers to its children by index.  Sub-expressions are shared by
//! referring to the same index twice, and an arena index also serves as
//! the unique identity of the edge occurrence that carries it, so that
//! removing one edge removes exactly that occurrence even when another
//! edge carries a structurally equal label.

use vstd::prelude::*;

verus! {

/// A relation label: the closed alphabet of memory-model relation types.
#[derive(Clone, Copy, PartialEq, Eq, Structural, Debug)]
pub enum EdgeType {
    Po,
    Rf,
    Dmb,
    Lwsync,
    Addr,
    Ctrl,
    Ctrlisb,
    Co,
    Data,
    Fr,
}

/// One arena cell of a regular expression.  Child expressions are arena
/// indices; in every arena built by this crate a child index is strictly
/// smaller than the index of its parent.
#[derive(Clone, Copy, PartialEq, Eq, Structural, Debug)]
pub enum RegexNode {
    /// A single labelled step.
    Term(EdgeType),
    /// Sequential composition of two expressions.
    Concat(usize, usize),
    /// Zero-or-more repetition of an expression.
    Star(usize),
    /// Union of two alternatives.
    Alt(usize, usize),
}

/// A complete regular expression: an arena together with its root index.
#[derive(Debug)]
pub struct Expr {
    pub arena: Vec<RegexNode>,
    pub root: usize,
}

/// The canonical lowercase text of a relation label.
pub open spec fn edge_type_name(t: EdgeType) -> Seq<u8> {
    match t {
        EdgeType::Po => seq![('p' as u8), ('o' as u8)],
        EdgeType::Rf => seq![('r' as u8), ('f' as u8)],
        EdgeType::Dmb => seq![('d' as u8), ('m' as u8), ('b' as u8)],
        EdgeType::Lwsync => seq![('l' as u8), ('w' as u8), ('s' as u8), ('y' as u8), ('n' as u8), ('c' as u8)],
        EdgeType::Addr => seq![('a' as u8), ('d' as u8), ('d' as u8), ('r' as u8)],
        EdgeType::Ctrl => seq![('c' as u8), ('t' as u8), ('r' as u8), ('l' as u8)],
        EdgeType::Ctrlisb => seq![('c' as u8), ('t' as u8), ('r' as u8), ('l' as u8), ('i' as u8), ('s' as u8), ('b' as u8)],
        EdgeType::Co => seq![('c' as u8), ('o' as u8)],
        EdgeType::Data => seq![('d' as u8), ('a' as u8), ('t' as u8), ('a' as u8)],
        EdgeType::Fr => seq![('f' as u8), ('r' as u8)],
    }
}

/// Text wrapped in parentheses.
pub open spec fn wrap_parens(s: Seq<u8>) -> Seq<u8> {
    seq![('(' as u8)] + s + seq![(')' as u8)]
}

/// The rendered text of the expression rooted at arena index `i`.
///
/// Alternation binds weakest: an `Alt` operand of a `Concat` is
/// parenthesized, and the body of a `Star` is parenthesized unless it is
/// a bare `Term`.  A child reference that does not point strictly below
/// its parent renders as empty text; the arenas built by this crate never
/// contain such a reference.
pub open spec fn render_spec(a: Seq<RegexNode>, i: int) -> Seq<u8>
    decreases i,
{
    if 0 <= i < a.len() {
        match a[i] {
            RegexNode::Term(t) => edge_type_name(t),
            RegexNode::Concat(x, y) => {
                if x < i && y < i {
                    let xs = if a[x as int] is Alt {
                        wrap_parens(render_spec(a, x as int))
                    } else {
                        render_spec(a, x as int)
                    };
                    let ys = if a[y as int] is Alt {
                        wrap_parens(render_spec(a, y as int))
                    } else {
                        render_spec(a, y as int)
                    };
                    xs + ys
                } else {
                    Seq::empty()
                }
            },
            RegexNode::Star(x) => {
                if x < i {
                    if a[x as int] is Term {
                        render_spec(a, x as int) + seq![('*' as u8)]
                    } else {
                        wrap_parens(render_spec(a, x as int)) + seq![('*' as u8)]
                    }
                } else {
                    Seq::empty()
                }
            },
            RegexNode::Alt(x, y) => {
                if x < i && y < i {
                    render_spec(a, x as int) + seq![('|' as u8)] + render_spec(a, y as int)
                } else {
                    Seq::empty()
                }
            },
        }
    } else {
        Seq::empty()
    }
}

/// Appends the text of a relation label to `out`.
fn push_name(out: &mut Vec<u8>, t: EdgeType)
    ensures
        final(out)@ == old(out)@ + edge_type_name(t),
{
    match t {
        EdgeType::Po => {
            out.push(('p' as u8));
            out.push(('o' as u8));
        },
        EdgeType::Rf => {
            out.push(('r' as u8));
            out.push(('f' as u8));
        },
        EdgeType::Dmb => {
            out.push(('d' as u8));
            out.push(('m' as u8));
            out.push(('b' as u8));
        },
        EdgeType::Lwsync => {
            out.push(('l' as u8));
            out.push(('w' as u8));
            out.push(('s' as u8));
            out.push(('y' as u8));
            out.push(('n' as u8));
            out.push(('c' as u8));
        },
        EdgeType::Addr => {
            out.push(('a' as u8));
            out.push(('d' as u8));
            out.push(('d' as u8));
            out.push(('r' as u8));
        },
        EdgeType::Ctrl => {
            out.push(('c' as u8));
            out.push(('t' as u8));
            out.push(('r' as u8));
            out.push(('l' as u8));
        },
        EdgeType::Ctrlisb => {
            out.push(('c' as u8));
            out.push(('t' as u8));
            out.push(('r' as u8));
            out.push(('l' as u8));
            out.push(('i' as u8));
            out.push(('s' as u8));
            out.push(('b' as u8));
        },
        EdgeType::Co => {
            out.push(('c' as u8));
            out.push(('o' as u8));
        },
        EdgeType::Data => {
            out.push(('d' as u8));
            out.push(('a' as u8));
            out.push(('t' as u8));
            out.push(('a' as u8));
        },
        EdgeType::Fr => {
            out.push(('f' as u8));
            out.push(('r' as u8));
        },
    }
    proof {
        assert(out@ =~= old(out)@ + edge_type_name(t));
    }
}

/// Appends the text of the expression rooted at `i` to `out`.
fn render_into(a: &Vec<RegexNode>, i: usize, out: &mut Vec<u8>)
    ensures
        final(out)@ == old(out)@ + render_spec(a@, i as int),
    decreases i,
{
    if i >= a.len() {
        proof {
            assert(out@ =~= out@ + render_spec(a@, i as int));
        }
        return ;
    }
    match a[i] {
        RegexNode::Term(t) => {
            push_name(out, t);
        },
        RegexNode::Concat(x, y) => {
            if x < i && y < i {
                if matches!(a[x], RegexNode::Alt(_, _)) {
                    out.push(('(' as u8));
                    render_into(a, x, out);
                    out.push((')' as u8));
                } else {
                    render_into(a, x, out);
                }
                if matches!(a[y], RegexNode::Alt(_, _)) {
                    out.push(('(' as u8));
                    render_into(a, y, out);
                    out.push((')' as u8));
                } else {
                    render_into(a, y, out);
                }
            }
            proof {
                assert(out@ =~= old(out)@ + render_spec(a@, i as int));
            }
        },
        RegexNode::Star(x) => {
            if x < i {
                if matches!(a[x], RegexNode::Term(_)) {
                    render_into(a, x, out);
                } else {
                    out.push(('(' as u8));
                    render_into(a, x, out);
                    out.push((')' as u8));
                }
                out.push(('*' as u8));
            }
            proof {
                assert(out@ =~= old(out)@ + render_spec(a@, i as int));
            }
        },
        RegexNode::Alt(x, y) => {
            if x < i && y < i {
                render_into(a, x, out);
                out.push(('|' as u8));
                render_into(a, y, out);
            }
            proof {
                assert(out@ =~= old(out)@ + render_spec(a@, i as int));
            }
        },
    }
}

impl Expr {
    /// Renders the expression to its canonical text.
    ///
    /// The result is pinned to `render_spec`, a pure function of the
    /// arena and root alone, so rendering the same expression any number
    /// of times yields identical text.
    pub fn render(&self) -> (r: Vec<u8>)
        ensures
            r@ == render_spec(self.arena@, self.root as int),
    {
        let mut out: Vec<u8> = Vec::new();
        render_into(&self.arena, self.root, &mut out);
        out
    }
}

} // verus!

