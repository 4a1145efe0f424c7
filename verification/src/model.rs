use crate::error::QueryError;
use crate::transform::{FactSpec, Transform};
use vstd::prelude::*;

verus! {

/// The conversion graph as contracts see it: each unit with the map from its
/// neighbours to the transform of the edge that leads there.
pub type Conversions<F> = Map<Seq<char>, Map<Seq<char>, Transform<F>>>;

/// The edges that leave `a`; none if `a` is not a unit of the graph.
pub open spec fn edges_from<F>(g: Conversions<F>, a: Seq<char>) -> Map<Seq<char>, Transform<F>> {
    if g.dom().contains(a) {
        g[a]
    } else {
        Map::empty()
    }
}

/// The graph with the edge from `a` to `b` set to `t`.  The unit `a` is added
/// if it is new; an earlier edge from `a` to `b` is overwritten.
pub open spec fn with_edge<F>(g: Conversions<F>, a: Seq<char>, b: Seq<char>, t: Transform<F>)
    -> Conversions<F> {
    g.insert(a, edges_from(g, a).insert(b, t))
}

/// The graph with both edges of `fact`: forward by multiplication, then
/// backward by division.
pub open spec fn with_fact<F>(g: Conversions<F>, fact: FactSpec<F>) -> Conversions<F> {
    with_edge(
        with_edge(g, fact.0, fact.2, Transform::Multiply(fact.1)),
        fact.2,
        fact.0,
        Transform::Divide(fact.1),
    )
}

/// The graph of a list of facts, taken in order from the empty graph.
pub open spec fn graph_of<F>(facts: Seq<FactSpec<F>>) -> Conversions<F>
    decreases facts.len(),
{
    if facts.len() == 0 {
        Map::empty()
    } else {
        with_fact(graph_of(facts.drop_last()), facts.last())
    }
}

/// Both are units of the graph and an edge leads from `a` to `b`.
pub open spec fn adjacent<F>(g: Conversions<F>, a: Seq<char>, b: Seq<char>) -> bool {
    &&& g.dom().contains(a)
    &&& g.dom().contains(b)
    &&& g[a].dom().contains(b)
}

/// A non-empty sequence of units of the graph, each adjacent to the next.
pub open spec fn is_walk<F>(g: Conversions<F>, p: Seq<Seq<char>>) -> bool {
    &&& p.len() > 0
    &&& g.dom().contains(p[0])
    &&& forall|i: int| 0 <= i < p.len() - 1 ==> adjacent(g, #[trigger] p[i], p[i + 1])
}

/// Some walk leads from `a` to `b`.  A unit of the graph is connected to
/// itself; a name that is no unit of the graph is connected to nothing.
pub open spec fn connected<F>(g: Conversions<F>, a: Seq<char>, b: Seq<char>) -> bool {
    exists|p: Seq<Seq<char>>| #[trigger] is_walk(g, p) && p[0] == a && p.last() == b
}

/// A walk from `a` to `b` that a search may answer with: it passes no unit
/// twice, and where an edge leads from `a` straight to `b` it is that edge.
pub open spec fn is_route<F>(g: Conversions<F>, p: Seq<Seq<char>>, a: Seq<char>, b: Seq<char>)
    -> bool {
    &&& is_walk(g, p)
    &&& p[0] == a
    &&& p.last() == b
    &&& p.no_duplicates()
    &&& (a != b && adjacent(g, a, b) ==> p.len() == 2)
}

/// The transforms of the edges of a walk, in the order of the walk.
pub open spec fn chain_along<F>(g: Conversions<F>, p: Seq<Seq<char>>) -> Seq<Transform<F>> {
    Seq::new((p.len() - 1) as nat, |i: int| g[p[i]][p[i + 1]])
}

/// `r` is a value that `eval` may give when `x` is put through the
/// transforms of `chain`, first to last.
pub open spec fn applies<F, V, E: Fn(V, Transform<F>) -> V>(
    eval: E,
    chain: Seq<Transform<F>>,
    x: V,
    r: V,
) -> bool
    decreases chain.len(),
{
    if chain.len() == 0 {
        r == x
    } else {
        exists|mid: V|
            applies(eval, chain.drop_last(), x, mid) && #[trigger] eval.ensures(
                (mid, chain.last()),
                r,
            )
    }
}

/// One more transform at the end of a chain is one more call of `eval`.
pub proof fn lemma_applies_step<F, V, E: Fn(V, Transform<F>) -> V>(
    eval: E,
    chain: Seq<Transform<F>>,
    x: V,
    mid: V,
    r: V,
)
    requires
        chain.len() > 0,
        applies(eval, chain.drop_last(), x, mid),
        eval.ensures((mid, chain.last()), r),
    ensures
        applies(eval, chain, x, r),
{
}

/// What a conversion of `x` from `a` to `b` may answer: nothing exactly when
/// the two are not connected, and else `x` put through the chain of some
/// route from `a` to `b`.
pub open spec fn converts<F, V, E: Fn(V, Transform<F>) -> V>(
    g: Conversions<F>,
    eval: E,
    a: Seq<char>,
    b: Seq<char>,
    x: V,
    outcome: Option<V>,
) -> bool {
    match outcome {
        Some(v) => exists|p: Seq<Seq<char>>| #[trigger]
            is_route(g, p, a, b) && applies(eval, chain_along(g, p), x, v),
        None => !connected(g, a, b),
    }
}

/// What a conversion that explains itself may answer: `UnitNotFound` exactly
/// when one of the two names is no unit of the graph, `NoPath` exactly when
/// both are units and not connected, and else what `converts` allows.
pub open spec fn answers<F, V, E: Fn(V, Transform<F>) -> V>(
    g: Conversions<F>,
    eval: E,
    a: Seq<char>,
    b: Seq<char>,
    x: V,
    outcome: Result<V, QueryError>,
) -> bool {
    match outcome {
        Ok(v) => converts(g, eval, a, b, x, Some(v)),
        Err(QueryError::UnitNotFound) => !g.dom().contains(a) || !g.dom().contains(b),
        Err(QueryError::NoPath) => g.dom().contains(a) && g.dom().contains(b) && !connected(g, a, b),
    }
}

} // verus!
