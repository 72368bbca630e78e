//! The line grammar that builds an event graph.
//!
//! One initial line holds the token `init` followed by edge suffixes
//! ` | <relation> -> <id>`; every further line is
//! `[$]<id>: <R|W><addr>=<value>` followed by edge suffixes.  A leading
//! `$` marks an end-of-thread event, which gains a program-order edge to
//! the end node.  Text after the last well-formed edge suffix of a line
//! is ignored.  An unknown relation token, a number that does not fit,
//! or an edge target that no line defines is a fatal parse error.

use vstd::prelude::*;

use crate::ast::EdgeType;
use crate::ast::RegexNode;
use crate::graph::idx_of;
use crate::graph::node_views;
use crate::graph::AccessKind;
use crate::graph::Edge;
use crate::graph::Graph;
use crate::graph::GraphV;
use crate::graph::MemAccess;
use crate::graph::MemAccessV;
use crate::graph::Node;
use crate::graph::NodeV;
use crate::graph::END_ID;
use crate::graph::START_ID;

verus! {

/// Why a line could not be parsed.
#[derive(Clone, Copy, PartialEq, Eq, Structural, Debug)]
pub enum ParseError {
    /// No input lines at all.
    Empty,
    /// A line does not fit the grammar.
    Malformed,
    /// An edge suffix names an unknown relation token.
    BadEdgeType,
    /// A number in the line does not fit in 32 bits.
    BadNumber,
    /// An edge names a target id that no line defines.
    MissingTarget,
}

/// An ASCII decimal digit.
pub open spec fn is_digit(c: u8) -> bool {
    ('0' as u8) <= c <= ('9' as u8)
}

/// An ASCII letter.
pub open spec fn is_alpha(c: u8) -> bool {
    (('a' as u8) <= c <= ('z' as u8)) || (('A' as u8) <= c <= ('Z' as u8))
}

/// First position at or after `p` that does not hold a digit.
pub open spec fn digits_end(l: Seq<u8>, p: int) -> int
    decreases l.len() - p,
{
    if 0 <= p < l.len() && is_digit(l[p]) {
        digits_end(l, p + 1)
    } else {
        p
    }
}

/// First position at or after `p` that does not hold a letter.
pub open spec fn alpha_end(l: Seq<u8>, p: int) -> int
    decreases l.len() - p,
{
    if 0 <= p < l.len() && is_alpha(l[p]) {
        alpha_end(l, p + 1)
    } else {
        p
    }
}

/// The scan ends within the line and every byte scanned is a digit.
pub proof fn lemma_digits_end(l: Seq<u8>, p: int)
    requires
        0 <= p,
    ensures
        p <= digits_end(l, p),
        p <= l.len() ==> digits_end(l, p) <= l.len(),
        forall|j: int| p <= j < digits_end(l, p) ==> is_digit(l[j]),
    decreases l.len() - p,
{
    if 0 <= p < l.len() && is_digit(l[p]) {
        lemma_digits_end(l, p + 1);
    }
}

/// The scan ends within the line.
pub proof fn lemma_alpha_end(l: Seq<u8>, p: int)
    requires
        0 <= p,
    ensures
        p <= alpha_end(l, p),
        p <= l.len() ==> alpha_end(l, p) <= l.len(),
    decreases l.len() - p,
{
    if 0 <= p < l.len() && is_alpha(l[p]) {
        lemma_alpha_end(l, p + 1);
    }
}

/// Value of the decimal digits in `l[p..q)`; most significant first.
pub open spec fn num_val(l: Seq<u8>, p: int, q: int) -> int
    decreases q - p,
{
    if p >= q {
        0
    } else {
        num_val(l, p, q - 1) * 10 + (l[q - 1] - ('0' as u8))
    }
}

/// The value of a digit span is never negative.
pub proof fn lemma_num_val_nonneg(l: Seq<u8>, p: int, q: int)
    requires
        forall|j: int| p <= j < q ==> is_digit(l[j]),
    ensures
        num_val(l, p, q) >= 0,
    decreases q - p,
{
    if p < q {
        lemma_num_val_nonneg(l, p, q - 1);
    }
}

/// Over digits the value never shrinks as the span grows.
pub proof fn lemma_num_val_grows(l: Seq<u8>, p: int, mid: int, q: int)
    requires
        p <= mid <= q,
        forall|j: int| p <= j < q ==> is_digit(l[j]),
    ensures
        num_val(l, p, q) >= num_val(l, p, mid),
    decreases q - mid,
{
    lemma_num_val_nonneg(l, p, mid);
    if mid < q {
        lemma_num_val_grows(l, p, mid, q - 1);
        lemma_num_val_nonneg(l, p, q - 1);
    }
}

/// Scans digits starting at `p`.
fn scan_digits(l: &Vec<u8>, p: usize) -> (q: usize)
    requires
        p <= l@.len(),
    ensures
        q == digits_end(l@, p as int),
        p <= q <= l@.len(),
{
    let n = l.len();
    let mut q = p;
    while q < n && l[q] >= ('0' as u8) && l[q] <= ('9' as u8)
        invariant
            p <= q <= n,
            n == l@.len(),
            digits_end(l@, p as int) == digits_end(l@, q as int),
        decreases n - q,
    {
        q = q + 1;
    }
    q
}

/// Scans letters starting at `p`.
fn scan_alpha(l: &Vec<u8>, p: usize) -> (q: usize)
    requires
        p <= l@.len(),
    ensures
        q == alpha_end(l@, p as int),
        p <= q <= l@.len(),
{
    let n = l.len();
    let mut q = p;
    while q < n && ((l[q] >= ('a' as u8) && l[q] <= ('z' as u8)) || (l[q] >= ('A' as u8) && l[q]
        <= ('Z' as u8)))
        invariant
            p <= q <= n,
            n == l@.len(),
            alpha_end(l@, p as int) == alpha_end(l@, q as int),
        decreases n - q,
    {
        q = q + 1;
    }
    q
}

/// Reads the number in the digit span `l[p..q)`; `None` if it does not
/// fit in 32 bits.
fn parse_u32(l: &Vec<u8>, p: usize, q: usize) -> (r: Option<u32>)
    requires
        p <= q <= l@.len(),
        forall|j: int| p <= j < q ==> is_digit(l@[j]),
    ensures
        (match r {
            Option::Some(v) => v == num_val(l@, p as int, q as int) && num_val(
                l@,
                p as int,
                q as int,
            ) <= u32::MAX,
            Option::None => num_val(l@, p as int, q as int) > u32::MAX,
        }),
{
    let mut val: u64 = 0;
    let mut k = p;
    while k < q
        invariant
            p <= k <= q,
            q <= l@.len(),
            forall|j: int| p <= j < q ==> is_digit(l@[j]),
            val == num_val(l@, p as int, k as int),
            val <= u32::MAX as u64,
        decreases q - k,
    {
        let d = l[k];
        val = val * 10 + ((d - ('0' as u8)) as u64);
        if val > (u32::MAX as u64) {
            proof {
                lemma_num_val_grows(l@, p as int, k + 1 as int, q as int);
            }
            return Option::None;
        }
        k = k + 1;
    }
    Option::Some(val as u32)
}

/// The separator ` | ` stands at `p`.
pub open spec fn is_sep(l: Seq<u8>, p: int) -> bool {
    p + 3 <= l.len() && l[p] == (' ' as u8) && l[p + 1] == ('|' as u8) && l[p + 2] == (' ' as u8)
}

/// The arrow ` -> ` stands at `p`.
pub open spec fn is_arrow(l: Seq<u8>, p: int) -> bool {
    p + 4 <= l.len() && l[p] == (' ' as u8) && l[p + 1] == ('-' as u8) && l[p + 2] == ('>' as u8)
        && l[p + 3] == (' ' as u8)
}

/// Decides `is_sep`.
fn match_sep(l: &Vec<u8>, p: usize) -> (b: bool)
    requires
        p <= l@.len(),
    ensures
        b == is_sep(l@, p as int),
{
    l.len() - p >= 3 && l[p] == (' ' as u8) && l[p + 1] == ('|' as u8) && l[p + 2] == (' ' as u8)
}

/// Decides `is_arrow`.
fn match_arrow(l: &Vec<u8>, p: usize) -> (b: bool)
    requires
        p <= l@.len(),
    ensures
        b == is_arrow(l@, p as int),
{
    l.len() - p >= 4 && l[p] == (' ' as u8) && l[p + 1] == ('-' as u8) && l[p + 2] == ('>' as u8)
        && l[p + 3] == (' ' as u8)
}

/// The relation named by the token `l[p..q)`, if it is one of the
/// alphabet.
pub open spec fn edge_type_of(l: Seq<u8>, p: int, q: int) -> Option<EdgeType> {
    if q - p == 2 && l[p] == ('p' as u8) && l[p + 1] == ('o' as u8) {
        Option::Some(EdgeType::Po)
    } else if q - p == 2 && l[p] == ('r' as u8) && l[p + 1] == ('f' as u8) {
        Option::Some(EdgeType::Rf)
    } else if q - p == 3 && l[p] == ('d' as u8) && l[p + 1] == ('m' as u8) && l[p + 2] == ('b' as u8) {
        Option::Some(EdgeType::Dmb)
    } else if q - p == 6 && l[p] == ('l' as u8) && l[p + 1] == ('w' as u8) && l[p + 2] == ('s' as u8)
        && l[p + 3] == ('y' as u8) && l[p + 4] == ('n' as u8) && l[p + 5] == ('c' as u8) {
        Option::Some(EdgeType::Lwsync)
    } else if q - p == 4 && l[p] == ('a' as u8) && l[p + 1] == ('d' as u8) && l[p + 2] == ('d' as u8)
        && l[p + 3] == ('r' as u8) {
        Option::Some(EdgeType::Addr)
    } else if q - p == 7 && l[p] == ('c' as u8) && l[p + 1] == ('t' as u8) && l[p + 2] == ('r' as u8)
        && l[p + 3] == ('l' as u8) && l[p + 4] == ('i' as u8) && l[p + 5] == ('s' as u8) && l[p + 6]
        == ('b' as u8) {
        Option::Some(EdgeType::Ctrlisb)
    } else if q - p == 4 && l[p] == ('c' as u8) && l[p + 1] == ('t' as u8) && l[p + 2] == ('r' as u8)
        && l[p + 3] == ('l' as u8) {
        Option::Some(EdgeType::Ctrl)
    } else if q - p == 2 && l[p] == ('c' as u8) && l[p + 1] == ('o' as u8) {
        Option::Some(EdgeType::Co)
    } else if q - p == 4 && l[p] == ('d' as u8) && l[p + 1] == ('a' as u8) && l[p + 2] == ('t' as u8)
        && l[p + 3] == ('a' as u8) {
        Option::Some(EdgeType::Data)
    } else if q - p == 2 && l[p] == ('f' as u8) && l[p + 1] == ('r' as u8) {
        Option::Some(EdgeType::Fr)
    } else {
        Option::None
    }
}

/// Decides `edge_type_of`.
fn edge_type_from(l: &Vec<u8>, p: usize, q: usize) -> (r: Option<EdgeType>)
    requires
        p <= q <= l@.len(),
    ensures
        r == edge_type_of(l@, p as int, q as int),
{
    let len = q - p;
    if len == 2 && l[p] == ('p' as u8) && l[p + 1] == ('o' as u8) {
        Option::Some(EdgeType::Po)
    } else if len == 2 && l[p] == ('r' as u8) && l[p + 1] == ('f' as u8) {
        Option::Some(EdgeType::Rf)
    } else if len == 3 && l[p] == ('d' as u8) && l[p + 1] == ('m' as u8) && l[p + 2] == ('b' as u8) {
        Option::Some(EdgeType::Dmb)
    } else if len == 6 && l[p] == ('l' as u8) && l[p + 1] == ('w' as u8) && l[p + 2] == ('s' as u8)
        && l[p + 3] == ('y' as u8) && l[p + 4] == ('n' as u8) && l[p + 5] == ('c' as u8) {
        Option::Some(EdgeType::Lwsync)
    } else if len == 4 && l[p] == ('a' as u8) && l[p + 1] == ('d' as u8) && l[p + 2] == ('d' as u8)
        && l[p + 3] == ('r' as u8) {
        Option::Some(EdgeType::Addr)
    } else if len == 7 && l[p] == ('c' as u8) && l[p + 1] == ('t' as u8) && l[p + 2] == ('r' as u8)
        && l[p + 3] == ('l' as u8) && l[p + 4] == ('i' as u8) && l[p + 5] == ('s' as u8) && l[p + 6]
        == ('b' as u8) {
        Option::Some(EdgeType::Ctrlisb)
    } else if len == 4 && l[p] == ('c' as u8) && l[p + 1] == ('t' as u8) && l[p + 2] == ('r' as u8)
        && l[p + 3] == ('l' as u8) {
        Option::Some(EdgeType::Ctrl)
    } else if len == 2 && l[p] == ('c' as u8) && l[p + 1] == ('o' as u8) {
        Option::Some(EdgeType::Co)
    } else if len == 4 && l[p] == ('d' as u8) && l[p + 1] == ('a' as u8) && l[p + 2] == ('t' as u8)
        && l[p + 3] == ('a' as u8) {
        Option::Some(EdgeType::Data)
    } else if len == 2 && l[p] == ('f' as u8) && l[p + 1] == ('r' as u8) {
        Option::Some(EdgeType::Fr)
    } else {
        Option::None
    }
}

/// Result of trying one edge suffix at a position: no match (the line's
/// edge list ends there), a fatal error, or the edge with the position
/// after it.
pub ghost enum EdgeStep {
    NoMatch,
    Bad(ParseError),
    Found(EdgeType, u32, int),
}

/// One edge suffix ` | <relation> -> <id>` at `p`.  A token that scans
/// as `~` or as an unknown relation word inside an otherwise well-formed
/// suffix is a fatal error; any other mismatch simply ends the edge
/// list.
pub open spec fn parse_edge_spec(l: Seq<u8>, p: int) -> EdgeStep {
    if !is_sep(l, p) {
        EdgeStep::NoMatch
    } else {
        let p1 = p + 3;
        let qa = alpha_end(l, p1);
        let tilde = qa == p1 && p1 < l.len() && l[p1] == ('~' as u8);
        if qa == p1 && !tilde {
            EdgeStep::NoMatch
        } else {
            let pt = if tilde {
                p1 + 1
            } else {
                qa
            };
            if !is_arrow(l, pt) {
                EdgeStep::NoMatch
            } else {
                let pd = pt + 4;
                let qd = digits_end(l, pd);
                if qd == pd {
                    EdgeStep::NoMatch
                } else if tilde {
                    EdgeStep::Bad(ParseError::BadEdgeType)
                } else {
                    match edge_type_of(l, p1, qa) {
                        Option::None => EdgeStep::Bad(ParseError::BadEdgeType),
                        Option::Some(et) => {
                            if num_val(l, pd, qd) > u32::MAX {
                                EdgeStep::Bad(ParseError::BadNumber)
                            } else {
                                EdgeStep::Found(et, num_val(l, pd, qd) as u32, qd)
                            }
                        },
                    }
                }
            }
        }
    }
}

/// A found edge suffix ends strictly after `p` and within the line.
pub proof fn lemma_parse_edge_progress(l: Seq<u8>, p: int)
    requires
        0 <= p <= l.len(),
    ensures
        (parse_edge_spec(l, p) matches EdgeStep::Found(_, _, q) ==> p < q <= l.len()),
{
    if is_sep(l, p) {
        lemma_alpha_end(l, p + 3);
        let qa = alpha_end(l, p + 3);
        let tilde = qa == p + 3 && p + 3 < l.len() && l[p + 3] == ('~' as u8);
        let pt = if tilde {
            p + 4
        } else {
            qa
        };
        if 0 <= pt && is_arrow(l, pt) {
            lemma_digits_end(l, pt + 4);
        }
    }
}

/// Parses one edge suffix at `p`: `Ok(None)` when the edge list ends
/// there, the edge and the position after it when one matches.
pub fn parse_edge(l: &Vec<u8>, p: usize) -> (r: Result<Option<(EdgeType, u32, usize)>, ParseError>)
    requires
        p <= l@.len(),
    ensures
        (match parse_edge_spec(l@, p as int) {
            EdgeStep::NoMatch => r == Result::Ok::<Option<(EdgeType, u32, usize)>, ParseError>(
                Option::None,
            ),
            EdgeStep::Bad(e) => r == Result::Err::<Option<(EdgeType, u32, usize)>, ParseError>(e),
            EdgeStep::Found(et, id, q) => r == Result::Ok::<
                Option<(EdgeType, u32, usize)>,
                ParseError,
            >(Option::Some((et, id, q as usize))),
        }),
{
    let n = l.len();
    if !match_sep(l, p) {
        return Result::Ok(Option::None);
    }
    let p1 = p + 3;
    proof {
        lemma_alpha_end(l@, p1 as int);
    }
    let qa = scan_alpha(l, p1);
    let tilde = qa == p1 && p1 < l.len() && l[p1] == ('~' as u8);
    if qa == p1 && !tilde {
        return Result::Ok(Option::None);
    }
    let pt = if tilde {
        p1 + 1
    } else {
        qa
    };
    if !match_arrow(l, pt) {
        return Result::Ok(Option::None);
    }
    proof {
        assert(pt + 4 <= l@.len());
    }
    let pd = pt + 4;
    proof {
        lemma_digits_end(l@, pd as int);
    }
    let qd = scan_digits(l, pd);
    if qd == pd {
        return Result::Ok(Option::None);
    }
    if tilde {
        return Result::Err(ParseError::BadEdgeType);
    }
    match edge_type_from(l, p1, qa) {
        Option::None => Result::Err(ParseError::BadEdgeType),
        Option::Some(et) => {
            match parse_u32(l, pd, qd) {
                Option::None => Result::Err(ParseError::BadNumber),
                Option::Some(id) => Result::Ok(Option::Some((et, id, qd))),
            }
        },
    }
}

/// The whole edge list of a line starting at `p`: edges until the first
/// non-matching position; a fatal edge error fails the line.
pub open spec fn parse_edges_spec(l: Seq<u8>, p: int) -> Result<Seq<(EdgeType, u32)>, ParseError>
    decreases l.len() - p,
{
    match parse_edge_spec(l, p) {
        EdgeStep::NoMatch => Result::Ok(Seq::empty()),
        EdgeStep::Bad(e) => Result::Err(e),
        EdgeStep::Found(et, id, q) => {
            if p < q <= l.len() {
                match parse_edges_spec(l, q) {
                    Result::Err(e) => Result::Err(e),
                    Result::Ok(rest) => Result::Ok(seq![(et, id)] + rest),
                }
            } else {
                // Unreachable: a found edge always makes progress.
                Result::Ok(Seq::empty())
            }
        },
    }
}

/// Parses the edge list of a line starting at `p`.
pub fn parse_edges(l: &Vec<u8>, p: usize) -> (r: Result<Vec<(EdgeType, u32)>, ParseError>)
    requires
        p <= l@.len(),
    ensures
        (match parse_edges_spec(l@, p as int) {
            Result::Ok(es) => r matches Result::Ok(v) && v@ == es,
            Result::Err(e) => r == Result::Err::<Vec<(EdgeType, u32)>, ParseError>(e),
        }),
    decreases l@.len() - p,
{
    let n = l.len();
    proof {
        lemma_parse_edge_progress(l@, p as int);
    }
    match parse_edge(l, p) {
        Result::Err(e) => Result::Err(e),
        Result::Ok(Option::None) => Result::Ok(Vec::new()),
        Result::Ok(Option::Some((et, id, q))) => {
            proof {
                assert(p < q <= n);
            }
            match parse_edges(l, q) {
                Result::Err(e) => Result::Err(e),
                Result::Ok(rest) => {
                    let ghost rv = rest@;
                    let mut v = rest;
                    v.insert(0, (et, id));
                    proof {
                        assert(v@ =~= seq![(et, id)] + rv);
                    }
                    Result::Ok(v)
                },
            }
        },
    }
}

} // verus!

verus! {

/// The pair `": "` stands at `p`.
pub open spec fn is_colon_sp(l: Seq<u8>, p: int) -> bool {
    p + 2 <= l.len() && l[p] == (':' as u8) && l[p + 1] == (' ' as u8)
}

/// Decides `is_colon_sp`.
fn match_colon_sp(l: &Vec<u8>, p: usize) -> (b: bool)
    requires
        p <= l@.len(),
    ensures
        b == is_colon_sp(l@, p as int),
{
    l.len() - p >= 2 && l[p] == (':' as u8) && l[p + 1] == (' ' as u8)
}

/// What one event line says: the event, its access, its out-edges and
/// whether it ends its thread.
pub ghost struct ParsedNodeV {
    pub id: u32,
    pub kind: AccessKind,
    pub addr: Seq<u8>,
    pub value: u32,
    pub edges: Seq<(EdgeType, u32)>,
    pub ending: bool,
}

/// One event line: `[$]<id>: <R|W><addr>=<value>` followed by its edge
/// suffixes.
pub open spec fn parse_node_spec(l: Seq<u8>) -> Result<ParsedNodeV, ParseError> {
    let ending = l.len() >= 1 && l[0] == ('$' as u8);
    let p0: int = if ending {
        1
    } else {
        0
    };
    let qd = digits_end(l, p0);
    if qd == p0 {
        Result::Err(ParseError::Malformed)
    } else if !is_colon_sp(l, qd) {
        Result::Err(ParseError::Malformed)
    } else {
        let pa = qd + 2;
        if !(pa < l.len() && (l[pa] == ('R' as u8) || l[pa] == ('W' as u8))) {
            Result::Err(ParseError::Malformed)
        } else {
            let kind = if l[pa] == ('R' as u8) {
                AccessKind::Read
            } else {
                AccessKind::Write
            };
            let qa = alpha_end(l, pa + 1);
            if qa == pa + 1 {
                Result::Err(ParseError::Malformed)
            } else if !(qa < l.len() && l[qa] == ('=' as u8)) {
                Result::Err(ParseError::Malformed)
            } else {
                let qv = digits_end(l, qa + 1);
                if qv == qa + 1 {
                    Result::Err(ParseError::Malformed)
                } else {
                    match parse_edges_spec(l, qv) {
                        Result::Err(e) => Result::Err(e),
                        Result::Ok(edges) => {
                            if num_val(l, p0, qd) > u32::MAX {
                                Result::Err(ParseError::BadNumber)
                            } else if num_val(l, qa + 1, qv) > u32::MAX {
                                Result::Err(ParseError::BadNumber)
                            } else {
                                Result::Ok(
                                    ParsedNodeV {
                                        id: num_val(l, p0, qd) as u32,
                                        kind,
                                        addr: l.subrange(pa + 1, qa),
                                        value: num_val(l, qa + 1, qv) as u32,
                                        edges,
                                        ending,
                                    },
                                )
                            }
                        },
                    }
                }
            }
        }
    }
}

/// Appends one `Term` cell per parsed edge to the arena and builds the
/// out-edge list carrying the fresh labels.
pub open spec fn push_terms(a: Seq<RegexNode>, edges: Seq<(EdgeType, u32)>) -> (
    Seq<RegexNode>,
    Seq<Edge>,
)
    decreases edges.len(),
{
    if edges.len() == 0 {
        (a, Seq::empty())
    } else {
        let (a1, es) = push_terms(a, edges.drop_last());
        (
            a1.push(RegexNode::Term(edges.last().0)),
            es.push(Edge { label: a1.len() as usize, other: edges.last().1 }),
        )
    }
}

/// Appends the `Term` cells for a parsed edge list to the arena.
fn vec_push_terms(exprs: &mut Vec<RegexNode>, edges: &Vec<(EdgeType, u32)>) -> (r: Vec<Edge>)
    ensures
        (final(exprs)@, r@) == push_terms(old(exprs)@, edges@),
{
    let ghost a0 = exprs@;
    let n = edges.len();
    let mut r: Vec<Edge> = Vec::new();
    let mut k: usize = 0;
    while k < n
        invariant
            k <= n,
            n == edges@.len(),
            (exprs@, r@) == push_terms(a0, edges@.take(k as int)),
        decreases n - k,
    {
        let (et, id) = edges[k];
        proof {
            assert(edges@.take(k + 1 as int).drop_last() =~= edges@.take(k as int));
            assert(edges@.take(k + 1 as int).last() == edges@[k as int]);
        }
        let label = exprs.len();
        exprs.push(RegexNode::Term(et));
        r.push(Edge { label, other: id });
        k = k + 1;
    }
    proof {
        assert(edges@.take(n as int) =~= edges@);
    }
    r
}

/// The node an event line defines, given the arena to grow: the node
/// value and the grown arena.
pub open spec fn node_from_parsed(pn: ParsedNodeV, a: Seq<RegexNode>) -> (NodeV, Seq<RegexNode>) {
    let (a1, es) = push_terms(a, pn.edges);
    (
        NodeV {
            id: pn.id,
            access: Option::Some(MemAccessV { kind: pn.kind, addr: pn.addr, value: pn.value }),
            ins: Seq::empty(),
            outs: es,
        },
        a1,
    )
}

/// Parses one event line and builds its node, growing the arena by one
/// `Term` per edge.  On an error nothing is changed.
pub fn parse_node(l: &Vec<u8>, exprs: &mut Vec<RegexNode>) -> (r: Result<(Node, bool), ParseError>)
    ensures
        (match parse_node_spec(l@) {
            Result::Ok(pn) => r matches Result::Ok((n, ending)) && n@ == node_from_parsed(
                pn,
                old(exprs)@,
            ).0 && final(exprs)@ == node_from_parsed(pn, old(exprs)@).1 && ending == pn.ending,
            Result::Err(e) => r == Result::Err::<(Node, bool), ParseError>(e) && final(exprs)@
                == old(exprs)@,
        }),
{
    let n = l.len();
    let ending = n >= 1 && l[0] == ('$' as u8);
    let p0: usize = if ending {
        1
    } else {
        0
    };
    proof {
        lemma_digits_end(l@, p0 as int);
    }
    let qd = scan_digits(l, p0);
    if qd == p0 {
        return Result::Err(ParseError::Malformed);
    }
    if !match_colon_sp(l, qd) {
        return Result::Err(ParseError::Malformed);
    }
    let pa = qd + 2;
    if !(pa < n && (l[pa] == ('R' as u8) || l[pa] == ('W' as u8))) {
        return Result::Err(ParseError::Malformed);
    }
    let kind = if l[pa] == ('R' as u8) {
        AccessKind::Read
    } else {
        AccessKind::Write
    };
    proof {
        lemma_alpha_end(l@, pa + 1 as int);
    }
    let qa = scan_alpha(l, pa + 1);
    if qa == pa + 1 {
        return Result::Err(ParseError::Malformed);
    }
    if !(qa < n && l[qa] == ('=' as u8)) {
        return Result::Err(ParseError::Malformed);
    }
    proof {
        lemma_digits_end(l@, qa + 1 as int);
    }
    let qv = scan_digits(l, qa + 1);
    if qv == qa + 1 {
        return Result::Err(ParseError::Malformed);
    }
    let edges = match parse_edges(l, qv) {
        Result::Err(e) => {
            return Result::Err(e);
        },
        Result::Ok(es) => es,
    };
    let id = match parse_u32(l, p0, qd) {
        Option::None => {
            return Result::Err(ParseError::BadNumber);
        },
        Option::Some(v) => v,
    };
    let value = match parse_u32(l, qa + 1, qv) {
        Option::None => {
            return Result::Err(ParseError::BadNumber);
        },
        Option::Some(v) => v,
    };
    // Copy the address token.
    let mut addr: Vec<u8> = Vec::new();
    let mut j = pa + 1;
    while j < qa
        invariant
            pa + 1 <= j <= qa,
            qa <= l@.len(),
            addr@ == l@.subrange(pa + 1 as int, j as int),
        decreases qa - j,
    {
        addr.push(l[j]);
        proof {
            assert(addr@ =~= l@.subrange(pa + 1 as int, j + 1 as int));
        }
        j = j + 1;
    }
    let outs = vec_push_terms(exprs, &edges);
    let node = Node {
        id,
        access: Option::Some(MemAccess { kind, addr, value }),
        in_edges: Vec::new(),
        out_edges: outs,
    };
    proof {
        assert(node@ =~~= node_from_parsed(parse_node_spec(l@)->Ok_0, old(exprs)@).0);
    }
    Result::Ok((node, ending))
}

/// First position where the token `init` begins, or `-1`.
pub open spec fn find_init(l: Seq<u8>, p: int) -> int
    decreases l.len() - p,
{
    if p < 0 || p + 4 > l.len() {
        -1
    } else if l[p] == ('i' as u8) && l[p + 1] == ('n' as u8) && l[p + 2] == ('i' as u8) && l[p + 3]
        == ('t' as u8) {
        p
    } else {
        find_init(l, p + 1)
    }
}

/// The initial line: anything up to the token `init`, then the start
/// node's edge suffixes.
pub open spec fn parse_init_spec(l: Seq<u8>) -> Result<Seq<(EdgeType, u32)>, ParseError> {
    let i = find_init(l, 0);
    if i < 0 {
        Result::Err(ParseError::Malformed)
    } else {
        parse_edges_spec(l, i + 4)
    }
}

/// Parses the initial line and builds the start node, growing the arena
/// by one `Term` per edge.  On an error nothing is changed.
pub fn parse_init_node(l: &Vec<u8>, exprs: &mut Vec<RegexNode>) -> (r: Result<Node, ParseError>)
    ensures
        (match parse_init_spec(l@) {
            Result::Ok(edges) => r matches Result::Ok(n) && n@ == (NodeV {
                id: START_ID,
                access: Option::None,
                ins: Seq::empty(),
                outs: push_terms(old(exprs)@, edges).1,
            }) && final(exprs)@ == push_terms(old(exprs)@, edges).0,
            Result::Err(e) => r == Result::Err::<Node, ParseError>(e) && final(exprs)@ == old(
                exprs,
            )@,
        }),
{
    let n = l.len();
    let mut p: usize = 0;
    while !(n - p < 4 || (l[p] == ('i' as u8) && l[p + 1] == ('n' as u8) && l[p + 2] == ('i' as u8)
        && l[p + 3] == ('t' as u8)))
        invariant
            p <= n,
            n == l@.len(),
            find_init(l@, 0) == find_init(l@, p as int),
        decreases n - p,
    {
        p = p + 1;
    }
    if n - p < 4 {
        return Result::Err(ParseError::Malformed);
    }
    let edges = match parse_edges(l, p + 4) {
        Result::Err(e) => {
            return Result::Err(e);
        },
        Result::Ok(es) => es,
    };
    let outs = vec_push_terms(exprs, &edges);
    let node = Node { id: START_ID, access: Option::None, in_edges: Vec::new(), out_edges: outs };
    proof {
        assert(node@ =~~= (NodeV {
            id: START_ID,
            access: Option::None,
            ins: Seq::empty(),
            outs: push_terms(old(exprs)@, parse_init_spec(l@)->Ok_0).1,
        }));
    }
    Result::Ok(node)
}

} // verus!

verus! {

/// Inserts a node under its id: replaces the node already carrying the
/// id, or appends.
pub open spec fn upsert(ns: Seq<NodeV>, n: NodeV) -> Seq<NodeV> {
    let j = idx_of(ns, n.id);
    if j < 0 {
        ns.push(n)
    } else {
        ns.update(j, n)
    }
}

/// Appends the end-of-thread program-order edge to a node, if the line
/// carried the `$` marker.
pub open spec fn with_end_edge(nv: NodeV, a: Seq<RegexNode>, ending: bool) -> (
    NodeV,
    Seq<RegexNode>,
) {
    if ending {
        (
            NodeV { outs: nv.outs.push(Edge { label: a.len() as usize, other: END_ID }), ..nv },
            a.push(RegexNode::Term(EdgeType::Po)),
        )
    } else {
        (nv, a)
    }
}

/// Folds the event lines (all but the first) into the node list and the
/// arena.
pub open spec fn parse_lines(
    ns: Seq<NodeV>,
    a: Seq<RegexNode>,
    lines: Seq<Seq<u8>>,
    k: int,
) -> Result<(Seq<NodeV>, Seq<RegexNode>), ParseError>
    decreases lines.len() - k,
{
    if k < 1 || k >= lines.len() {
        Result::Ok((ns, a))
    } else {
        match parse_node_spec(lines[k]) {
            Result::Err(e) => Result::Err(e),
            Result::Ok(pn) => {
                let (nv, a1) = node_from_parsed(pn, a);
                let (nv2, a2) = with_end_edge(nv, a1, pn.ending);
                parse_lines(upsert(ns, nv2), a2, lines, k + 1)
            },
        }
    }
}

/// Mirrors the out-edges `outs[k..]` of the node `src` into the in-edge
/// lists of their targets; a target that does not exist is an error.
pub open spec fn mirror_outs(ns: Seq<NodeV>, outs: Seq<Edge>, src: u32, k: int) -> Result<
    Seq<NodeV>,
    ParseError,
>
    decreases outs.len() - k,
{
    if k < 0 || k >= outs.len() {
        Result::Ok(ns)
    } else {
        let e = outs[k];
        let j = idx_of(ns, e.other);
        if j < 0 {
            Result::Err(ParseError::MissingTarget)
        } else {
            mirror_outs(
                ns.update(j, NodeV { ins: ns[j].ins.push(Edge { label: e.label, other: src }), ..ns[j] }),
                outs,
                src,
                k + 1,
            )
        }
    }
}

/// Mirrors the out-edges of the nodes `i..total` into their targets'
/// in-edge lists.
pub open spec fn mirror_all(ns: Seq<NodeV>, total: int, i: int) -> Result<Seq<NodeV>, ParseError>
    decreases total - i,
{
    if i < 0 || i >= total || i >= ns.len() {
        Result::Ok(ns)
    } else {
        match mirror_outs(ns, ns[i].outs, ns[i].id, 0) {
            Result::Err(e) => Result::Err(e),
            Result::Ok(ns1) => mirror_all(ns1, total, i + 1),
        }
    }
}

/// The line values of the input lines.
pub open spec fn line_views(lines: Seq<Vec<u8>>) -> Seq<Seq<u8>> {
    lines.map_values(|v: Vec<u8>| v@)
}

/// Finishes the build after the event lines: appends the end node and
/// mirrors every out-edge.
pub open spec fn finish_graph(r: Result<(Seq<NodeV>, Seq<RegexNode>), ParseError>) -> Result<
    GraphV,
    ParseError,
> {
    match r {
        Result::Err(e) => Result::Err(e),
        Result::Ok((ns1, a2)) => {
            let endn = NodeV {
                id: END_ID,
                access: Option::None,
                ins: Seq::empty(),
                outs: Seq::empty(),
            };
            let ns2 = upsert(ns1, endn);
            match mirror_all(ns2, ns2.len() as int, 0) {
                Result::Err(e) => Result::Err(e),
                Result::Ok(ns3) => Result::Ok(GraphV { nodes: ns3, exprs: a2 }),
            }
        },
    }
}

/// The graph the input lines describe: the start node from the first
/// line, one node per further line (a later line replaces an earlier
/// one carrying the same id), the end node, and every out-edge mirrored
/// into its target's in-edges.
pub open spec fn parse_graph_model(lines: Seq<Seq<u8>>) -> Result<GraphV, ParseError> {
    if lines.len() == 0 {
        Result::Err(ParseError::Empty)
    } else {
        match parse_init_spec(lines[0]) {
            Result::Err(e) => Result::Err(e),
            Result::Ok(edges0) => {
                let (a1, es0) = push_terms(Seq::empty(), edges0);
                let init = NodeV {
                    id: START_ID,
                    access: Option::None,
                    ins: Seq::empty(),
                    outs: es0,
                };
                finish_graph(parse_lines(seq![init], a1, lines, 1))
            },
        }
    }
}

/// Inserts a node under its id, replacing any node already carrying it.
fn upsert_node(nodes: &mut Vec<Node>, node: Node)
    ensures
        node_views(final(nodes)@) == upsert(node_views(old(nodes)@), node@),
{
    let ghost before = node_views(nodes@);
    let ghost nv = node@;
    match crate::graph::find_node(nodes, node.id) {
        Option::None => {
            nodes.push(node);
            proof {
                assert(node_views(nodes@) =~~= before.push(nv));
            }
        },
        Option::Some(j) => {
            let _old = nodes.remove(j);
            nodes.insert(j, node);
            proof {
                assert(node_views(nodes@) =~~= before.update(j as int, nv));
            }
        },
    }
}

/// Builds the event graph from the input lines: the first line defines
/// the start node's out-edges, each further line one event, and every
/// out-edge is mirrored into its target's in-edges.  The returned graph
/// satisfies exactly `parse_graph_model`; every way an input can be
/// malformed is reported as the matching error.
pub fn parse_graph(lines: &Vec<Vec<u8>>) -> (r: Result<Graph, ParseError>)
    ensures
        (match parse_graph_model(line_views(lines@)) {
            Result::Ok(gv) => r matches Result::Ok(g) && g@ == gv,
            Result::Err(e) => r == Result::Err::<Graph, ParseError>(e),
        }),
{
    let ghost lv = line_views(lines@);
    let n_lines = lines.len();
    if n_lines == 0 {
        return Result::Err(ParseError::Empty);
    }
    let mut exprs: Vec<RegexNode> = Vec::new();
    let mut nodes: Vec<Node> = Vec::new();
    proof {
        assert(lv[0] == lines@[0 as int]@);
    }
    let init = match parse_init_node(&lines[0], &mut exprs) {
        Result::Err(e) => {
            return Result::Err(e);
        },
        Result::Ok(n) => n,
    };
    let ghost a1 = exprs@;
    nodes.push(init);
    let ghost ns_init = node_views(nodes@);
    proof {
        assert(ns_init =~~= seq![init@]);
    }
    let mut k: usize = 1;
    while k < n_lines
        invariant
            1 <= k <= n_lines,
            n_lines == lines@.len(),
            lv == line_views(lines@),
            parse_graph_model(lv) == finish_graph(parse_lines(ns_init, a1, lv, 1)),
            parse_lines(ns_init, a1, lv, 1) == parse_lines(
                node_views(nodes@),
                exprs@,
                lv,
                k as int,
            ),
        decreases n_lines - k,
    {
        proof {
            assert(lv[k as int] == lines@[k as int]@);
        }
        let ghost ns_b = node_views(nodes@);
        let ghost a_b = exprs@;
        let (mut node, ending) = match parse_node(&lines[k], &mut exprs) {
            Result::Err(e) => {
                return Result::Err(e);
            },
            Result::Ok(p) => p,
        };
        if ending {
            let label = exprs.len();
            node.out_edges.push(Edge { label, other: END_ID });
            exprs.push(RegexNode::Term(EdgeType::Po));
        }
        proof {
            let pn = parse_node_spec(lv[k as int])->Ok_0;
            let (nv, aa1) = node_from_parsed(pn, a_b);
            let (nv2, aa2) = with_end_edge(nv, aa1, pn.ending);
            assert(node@ =~~= nv2);
            assert(exprs@ =~~= aa2);
        }
        upsert_node(&mut nodes, node);
        k = k + 1;
    }
    // The synthetic end node.
    let endn = Node {
        id: END_ID,
        access: Option::None,
        in_edges: Vec::new(),
        out_edges: Vec::new(),
    };
    let ghost ns1 = node_views(nodes@);
    let ghost a2 = exprs@;
    upsert_node(&mut nodes, endn);
    let ghost ns2 = node_views(nodes@);
    proof {
        assert(ns2 == upsert(
            ns1,
            (NodeV { id: END_ID, access: Option::None, ins: Seq::empty(), outs: Seq::empty() }),
        ));
    }
    // Mirror every out-edge into its target's in-edge list.
    let mut graph = Graph { nodes, exprs };
    let total = graph.nodes.len();
    proof {
        assert(parse_graph_model(lv) == (match mirror_all(ns2, total as int, 0) {
            Result::Err(e) => Result::Err::<GraphV, ParseError>(e),
            Result::Ok(ns3) => Result::Ok::<GraphV, ParseError>(GraphV { nodes: ns3, exprs: a2 }),
        }));
    }
    let mut i: usize = 0;
    while i < total
        invariant
            i <= total,
            total == graph.nodes@.len(),
            graph@.exprs == a2,
            lv == line_views(lines@),
            parse_graph_model(lv) == (match mirror_all(ns2, total as int, 0) {
                Result::Err(e) => Result::Err::<GraphV, ParseError>(e),
                Result::Ok(ns3) => Result::Ok::<GraphV, ParseError>(
                    (GraphV { nodes: ns3, exprs: a2 }),
                ),
            }),
            mirror_all(ns2, total as int, 0) == mirror_all(
                node_views(graph.nodes@),
                total as int,
                i as int,
            ),
        decreases total - i,
    {
        let ghost ns_row = node_views(graph.nodes@);
        let src = graph.nodes[i].id;
        let m = graph.nodes[i].out_edges.len();
        let ghost outs_row = ns_row[i as int].outs;
        proof {
            assert(ns_row[i as int] == graph.nodes@[i as int]@);
        }
        let mut k2: usize = 0;
        while k2 < m
            invariant
                i < total,
                k2 <= m,
                total == graph.nodes@.len(),
                graph@.exprs == a2,
                lv == line_views(lines@),
                parse_graph_model(lv) == (match mirror_all(ns2, total as int, 0) {
                    Result::Err(e) => Result::Err::<GraphV, ParseError>(e),
                    Result::Ok(ns3) => Result::Ok::<GraphV, ParseError>(
                        (GraphV { nodes: ns3, exprs: a2 }),
                    ),
                }),
                mirror_all(ns2, total as int, 0) == mirror_all(ns_row, total as int, i as int),
                ns_row.len() == total,
                ns_row[i as int].outs == outs_row,
                ns_row[i as int].id == src,
                node_views(graph.nodes@)[i as int].outs == outs_row,
                node_views(graph.nodes@)[i as int].id == src,
                m == outs_row.len(),
                graph.nodes@[i as int]@.outs == outs_row,
                mirror_outs(ns_row, outs_row, src, 0) == mirror_outs(
                    node_views(graph.nodes@),
                    outs_row,
                    src,
                    k2 as int,
                ),
            decreases m - k2,
        {
            proof {
                assert(graph.nodes@[i as int]@.outs[k2 as int] == outs_row[k2 as int]);
            }
            let e = graph.nodes[i].out_edges[k2];
            match graph.position_of(e.other) {
                Option::None => {
                    proof {
                        assert(mirror_outs(node_views(graph.nodes@), outs_row, src, k2 as int)
                            == Result::Err::<Seq<NodeV>, ParseError>(ParseError::MissingTarget));
                        assert(mirror_all(ns_row, total as int, i as int) == Result::Err::<
                            Seq<NodeV>,
                            ParseError,
                        >(ParseError::MissingTarget));
                    }
                    return Result::Err(ParseError::MissingTarget);
                },
                Option::Some(j) => {
                    graph.push_in_at(j, Edge { label: e.label, other: src });
                },
            }
            k2 = k2 + 1;
        }
        proof {
            assert(mirror_all(ns_row, total as int, i as int) == mirror_all(
                node_views(graph.nodes@),
                total as int,
                i + 1 as int,
            ));
        }
        i = i + 1;
    }
    proof {
        assert(parse_graph_model(lv) == Result::Ok::<GraphV, ParseError>(graph@));
    }
    Result::Ok(graph)
}

} // verus!
