use crate::error::QueryError;
use crate::model::{
    adjacent, answers, applies, chain_along, connected, converts, graph_of, is_route, is_walk, with_edge,
    with_fact, Conversions,
};
use crate::transform::{FactSpec, Transform};
use vstd::prelude::*;

verus! {

/// Every edge ends at a unit of the graph and has an edge back.
pub open spec fn two_way<F>(g: Conversions<F>) -> bool {
    forall|a: Seq<char>, b: Seq<char>|
        g.dom().contains(a) && #[trigger] g[a].dom().contains(b) ==> adjacent(g, b, a)
}

/// Some fact of the list names `u`, on either side.
pub open spec fn mentions<F>(facts: Seq<FactSpec<F>>, u: Seq<char>) -> bool {
    exists|i: int| 0 <= i < facts.len() && ((#[trigger] facts[i]).0 == u || facts[i].2 == u)
}

/// The two facts name the same two units, in the same order or reversed.
pub open spec fn same_pair<F>(x: FactSpec<F>, y: FactSpec<F>) -> bool {
    (x.0 == y.0 && x.2 == y.2) || (x.0 == y.2 && x.2 == y.0)
}

/// Fact `i` joins two different units, and no later fact of the list names
/// the same two.
pub open spec fn stands<F>(facts: Seq<FactSpec<F>>, i: int) -> bool {
    &&& 0 <= i < facts.len()
    &&& facts[i].0 != facts[i].2
    &&& forall|j: int| i < j < facts.len() ==> !same_pair(#[trigger] facts[j], facts[i])
}

/// An edge leads from `a` to `b`, whether or not `b` is a unit of the graph.
pub open spec fn has_edge<F>(g: Conversions<F>, a: Seq<char>, b: Seq<char>) -> bool {
    g.dom().contains(a) && g[a].dom().contains(b)
}

/// The edges of a graph with one more edge are those it had and the new
/// one.
pub proof fn lemma_with_edge<F>(
    g: Conversions<F>,
    x: Seq<char>,
    y: Seq<char>,
    t: Transform<F>,
    a: Seq<char>,
    b: Seq<char>,
)
    ensures
        has_edge(with_edge(g, x, y, t), a, b) <==> has_edge(g, a, b) || (a == x && b == y),
        with_edge(g, x, y, t).dom().contains(a) <==> g.dom().contains(a) || a == x,
{
}

/// A fact added to a two-way graph leaves it two-way.
pub proof fn lemma_with_fact_two_way<F>(g: Conversions<F>, fact: FactSpec<F>)
    requires
        two_way(g),
    ensures
        two_way(with_fact(g, fact)),
{
    let mul = Transform::Multiply(fact.1);
    let div = Transform::Divide(fact.1);
    let forth = with_edge(g, fact.0, fact.2, mul);
    let h = with_fact(g, fact);
    assert forall|a: Seq<char>, b: Seq<char>|
        h.dom().contains(a) && #[trigger] h[a].dom().contains(b) implies adjacent(h, b, a) by {
        lemma_with_edge(forth, fact.2, fact.0, div, a, b);
        lemma_with_edge(g, fact.0, fact.2, mul, a, b);
        lemma_with_edge(forth, fact.2, fact.0, div, b, a);
        lemma_with_edge(g, fact.0, fact.2, mul, b, a);
        if has_edge(g, a, b) {
            assert(g[a].dom().contains(b));
            assert(adjacent(g, b, a));
        }
        assert(has_edge(h, b, a));
    }
}

/// The graph of any list of facts is two-way: a fact puts in both
/// directions, and nothing ever takes an edge out.
pub proof fn lemma_graph_of_two_way<F>(facts: Seq<FactSpec<F>>)
    ensures
        two_way(graph_of(facts)),
    decreases facts.len(),
{
    if facts.len() > 0 {
        lemma_graph_of_two_way(facts.drop_last());
        lemma_with_fact_two_way(graph_of(facts.drop_last()), facts.last());
    }
}

/// The units of the graph of a list of facts are the names that the facts
/// mention.
pub proof fn lemma_graph_of_units<F>(facts: Seq<FactSpec<F>>, u: Seq<char>)
    ensures
        graph_of(facts).dom().contains(u) <==> mentions(facts, u),
    decreases facts.len(),
{
    if facts.len() > 0 {
        let before = facts.drop_last();
        lemma_graph_of_units(before, u);
        if mentions(before, u) {
            let i = choose|i: int| 0 <= i < before.len() && ((#[trigger] before[i]).0 == u || before[i].2 == u);
            assert(facts[i] == before[i]);
        }
        if mentions(facts, u) {
            let i = choose|i: int| 0 <= i < facts.len() && ((#[trigger] facts[i]).0 == u || facts[i].2 == u);
            if i < before.len() {
                assert(before[i] == facts[i]);
            }
        }
        if facts.last().0 == u || facts.last().2 == u {
            assert(facts[facts.len() - 1] == facts.last());
        }
    }
}

/// Every fact of the list leaves an edge each way between its two units,
/// whatever later facts did to the transforms.
pub proof fn lemma_fact_joins<F>(facts: Seq<FactSpec<F>>, i: int)
    requires
        0 <= i < facts.len(),
    ensures
        adjacent(graph_of(facts), facts[i].0, facts[i].2),
        adjacent(graph_of(facts), facts[i].2, facts[i].0),
    decreases facts.len(),
{
    let a = facts[i].0;
    let b = facts[i].2;
    let before = graph_of(facts.drop_last());
    let last = facts.last();
    let forth = with_edge(before, last.0, last.2, Transform::Multiply(last.1));
    if i < facts.len() - 1 {
        assert(facts.drop_last()[i] == facts[i]);
        lemma_fact_joins(facts.drop_last(), i);
    }
    lemma_with_edge(before, last.0, last.2, Transform::Multiply(last.1), a, b);
    lemma_with_edge(before, last.0, last.2, Transform::Multiply(last.1), b, a);
    lemma_with_edge(forth, last.2, last.0, Transform::Divide(last.1), a, b);
    lemma_with_edge(forth, last.2, last.0, Transform::Divide(last.1), b, a);
}

/// A fact that stands gives its two units their edges: forward by
/// multiplication, backward by division.
pub proof fn lemma_standing_fact_edges<F>(facts: Seq<FactSpec<F>>, i: int)
    requires
        stands(facts, i),
    ensures
        adjacent(graph_of(facts), facts[i].0, facts[i].2),
        adjacent(graph_of(facts), facts[i].2, facts[i].0),
        graph_of(facts)[facts[i].0][facts[i].2] == Transform::Multiply(facts[i].1),
        graph_of(facts)[facts[i].2][facts[i].0] == Transform::Divide(facts[i].1),
    decreases facts.len(),
{
    if i < facts.len() - 1 {
        let before = facts.drop_last();
        assert(before[i] == facts[i]);
        assert forall|j: int| i < j < before.len() implies !same_pair(#[trigger] before[j], before[i]) by {
            assert(before[j] == facts[j]);
        }
        lemma_standing_fact_edges(before, i);
        assert(!same_pair(facts[facts.len() - 1], facts[i]));
    }
}

/// In a two-way graph, what is connected one way is connected the other
/// way.
pub proof fn lemma_connected_both_ways<F>(g: Conversions<F>, a: Seq<char>, b: Seq<char>)
    requires
        two_way(g),
        connected(g, a, b),
    ensures
        connected(g, b, a),
{
    let p = choose|p: Seq<Seq<char>>| #[trigger] is_walk(g, p) && p[0] == a && p.last() == b;
    let q = Seq::new(p.len(), |i: int| p[p.len() - 1 - i]);
    assert forall|i: int| 0 <= i < q.len() - 1 implies adjacent(g, #[trigger] q[i], q[i + 1]) by {
        let k = p.len() - 2 - i;
        assert(adjacent(g, p[k], p[k + 1]));
    }
    if p.len() > 1 {
        assert(adjacent(g, p[p.len() - 2], p[p.len() - 2 + 1]));
    }
    assert(is_walk(g, q) && q[0] == b && q.last() == a);
}

/// Round trip.  Where a fact `(a, f, b)` stands, a conversion from `a` to `b`
/// answers with the value multiplied by `f`, and a conversion from `b` to `a`
/// with the value divided by `f`, each by one call of `eval`.
pub proof fn lemma_round_trip<F, V, E: Fn(V, Transform<F>) -> V>(
    facts: Seq<FactSpec<F>>,
    i: int,
    eval: E,
    x: V,
    forth: Option<V>,
    back: Option<V>,
)
    requires
        stands(facts, i),
    ensures
        converts(graph_of(facts), eval, facts[i].0, facts[i].2, x, forth) ==> (forth matches Some(
            v,
        ) && eval.ensures((x, Transform::Multiply(facts[i].1)), v)),
        converts(graph_of(facts), eval, facts[i].2, facts[i].0, x, back) ==> (back matches Some(v)
            && eval.ensures((x, Transform::Divide(facts[i].1)), v)),
{
    let g = graph_of(facts);
    let a = facts[i].0;
    let b = facts[i].2;
    lemma_standing_fact_edges(facts, i);
    if converts(g, eval, a, b, x, forth) {
        lemma_direct(g, eval, a, b, x, forth);
    }
    if converts(g, eval, b, a, x, back) {
        lemma_direct(g, eval, b, a, x, back);
    }
}

/// Between two different units with an edge from the first to the second, a
/// conversion is one call of `eval` with the transform of that edge.
pub proof fn lemma_direct<F, V, E: Fn(V, Transform<F>) -> V>(
    g: Conversions<F>,
    eval: E,
    a: Seq<char>,
    b: Seq<char>,
    x: V,
    out: Option<V>,
)
    requires
        a != b,
        adjacent(g, a, b),
        converts(g, eval, a, b, x, out),
    ensures
        out matches Some(v) && eval.ensures((x, g[a][b]), v),
{
    reveal_with_fuel(applies, 2);
    let direct = seq![a, b];
    assert(is_walk(g, direct) && direct[0] == a && direct.last() == b);
    let v = out->Some_0;
    let p = choose|p: Seq<Seq<char>>| #[trigger]
        is_route(g, p, a, b) && applies(eval, chain_along(g, p), x, v);
    let chain = chain_along(g, p);
    assert(chain.len() == 1);
    assert(chain.last() == g[a][b]);
    assert(chain.drop_last().len() == 0);
}

/// Identity.  A unit of the graph converts to itself, and the value comes
/// back as it went in.
pub proof fn lemma_identity<F, V, E: Fn(V, Transform<F>) -> V>(
    g: Conversions<F>,
    eval: E,
    a: Seq<char>,
    x: V,
    out: Option<V>,
)
    requires
        g.dom().contains(a),
        converts(g, eval, a, a, x, out),
    ensures
        out == Some(x),
{
    let alone = seq![a];
    assert(is_walk(g, alone) && alone[0] == a && alone.last() == a);
    let v = out->Some_0;
    let p = choose|p: Seq<Seq<char>>| #[trigger]
        is_route(g, p, a, a) && applies(eval, chain_along(g, p), x, v);
    if p.len() > 1 {
        assert(p[0] == p[p.len() - 1]);
    }
}

/// Composition.  Where facts `(a, f1, b)` and `(b, f2, c)` stand and no
/// other way leads from `a` to `c` without passing a unit twice, a
/// conversion from `a` to `c` multiplies by `f1` and then by `f2`.
pub proof fn lemma_composition<F, V, E: Fn(V, Transform<F>) -> V>(
    facts: Seq<FactSpec<F>>,
    i: int,
    j: int,
    eval: E,
    x: V,
    out: Option<V>,
)
    requires
        stands(facts, i),
        stands(facts, j),
        facts[i].2 == facts[j].0,
        forall|p: Seq<Seq<char>>|
            #[trigger] is_walk(graph_of(facts), p) && p[0] == facts[i].0 && p.last() == facts[j].2
                && p.no_duplicates() ==> p == seq![facts[i].0, facts[i].2, facts[j].2],
        converts(graph_of(facts), eval, facts[i].0, facts[j].2, x, out),
    ensures
        out matches Some(v) && exists|mid: V|
            eval.ensures((x, Transform::Multiply(facts[i].1)), mid) && #[trigger] eval.ensures(
                (mid, Transform::Multiply(facts[j].1)),
                v,
            ),
{
    reveal_with_fuel(applies, 3);
    let g = graph_of(facts);
    let a = facts[i].0;
    let b = facts[i].2;
    let c = facts[j].2;
    lemma_standing_fact_edges(facts, i);
    lemma_standing_fact_edges(facts, j);
    let through = seq![a, b, c];
    assert forall|k: int| 0 <= k < through.len() - 1 implies adjacent(g, #[trigger] through[k], through[k + 1]) by {
        if k == 0 {
        } else {
            assert(k == 1);
        }
    }
    assert(is_walk(g, through) && through[0] == a && through.last() == c);
    let v = out->Some_0;
    let p = choose|p: Seq<Seq<char>>| #[trigger]
        is_route(g, p, a, c) && applies(eval, chain_along(g, p), x, v);
    assert(p == through);
    let chain = chain_along(g, p);
    assert(chain.len() == 2);
    assert(chain.last() == g[b][c]);
    let first = chain.drop_last();
    assert(first.len() == 1);
    assert(first.last() == g[a][b]);
    assert(first.drop_last().len() == 0);
    let mid = choose|mid: V| applies(eval, first, x, mid) && #[trigger] eval.ensures((mid, chain.last()), v);
    assert(eval.ensures((x, Transform::Multiply(facts[i].1)), mid));
}

/// Symmetry.  In the graph of any list of facts, where a conversion from `a`
/// to `b` has an answer, so has a conversion from `b` to `a`.
pub proof fn lemma_symmetry<F, V, E: Fn(V, Transform<F>) -> V>(
    facts: Seq<FactSpec<F>>,
    eval: E,
    a: Seq<char>,
    b: Seq<char>,
    x: V,
    y: V,
    forth: Option<V>,
    back: Option<V>,
)
    requires
        converts(graph_of(facts), eval, a, b, x, forth),
        converts(graph_of(facts), eval, b, a, y, back),
    ensures
        forth is Some <==> back is Some,
{
    let g = graph_of(facts);
    lemma_graph_of_two_way(facts);
    if connected(g, a, b) {
        lemma_connected_both_ways(g, a, b);
    }
    if connected(g, b, a) {
        lemma_connected_both_ways(g, b, a);
    }
    lemma_answer_iff_connected(g, eval, a, b, x, forth);
    lemma_answer_iff_connected(g, eval, b, a, y, back);
}

/// A conversion has an answer exactly when its two units are connected.
pub proof fn lemma_answer_iff_connected<F, V, E: Fn(V, Transform<F>) -> V>(
    g: Conversions<F>,
    eval: E,
    a: Seq<char>,
    b: Seq<char>,
    x: V,
    out: Option<V>,
)
    requires
        converts(g, eval, a, b, x, out),
    ensures
        out is Some <==> connected(g, a, b),
{
    if out is Some {
        let v = out->Some_0;
        let p = choose|p: Seq<Seq<char>>| #[trigger]
            is_route(g, p, a, b) && applies(eval, chain_along(g, p), x, v);
        assert(is_walk(g, p) && p[0] == a && p.last() == b);
    }
}

/// A conversion that explains itself succeeds exactly when its two units
/// are connected, and names an unknown unit exactly when there is one.
pub proof fn lemma_answers_apart<F, V, E: Fn(V, Transform<F>) -> V>(
    g: Conversions<F>,
    eval: E,
    a: Seq<char>,
    b: Seq<char>,
    x: V,
    out: Result<V, QueryError>,
)
    requires
        answers(g, eval, a, b, x, out),
    ensures
        out is Ok <==> connected(g, a, b),
        out == Err::<V, QueryError>(QueryError::UnitNotFound) <==> !g.dom().contains(a)
            || !g.dom().contains(b),
        out == Err::<V, QueryError>(QueryError::NoPath) <==> g.dom().contains(a) && g.dom().contains(b)
            && !connected(g, a, b),
{
    if out is Ok {
        lemma_answer_iff_connected(g, eval, a, b, x, Some(out->Ok_0));
    }
    if connected(g, a, b) {
        let p = choose|p: Seq<Seq<char>>| #[trigger] is_walk(g, p) && p[0] == a && p.last() == b;
        if p.len() > 1 {
            assert(adjacent(g, p[p.len() - 2], p[p.len() - 2 + 1]));
        }
    }
}

/// Unreachable pair.  Two units that no walk joins convert to nothing.
pub proof fn lemma_unreachable<F, V, E: Fn(V, Transform<F>) -> V>(
    g: Conversions<F>,
    eval: E,
    a: Seq<char>,
    b: Seq<char>,
    x: V,
    out: Option<V>,
)
    requires
        !connected(g, a, b),
        converts(g, eval, a, b, x, out),
    ensures
        out is None,
{
    lemma_answer_iff_connected(g, eval, a, b, x, out);
}

/// Unknown unit.  A conversion from or to a name that no fact mentions has
/// no answer.
pub proof fn lemma_unknown_unit<F, V, E: Fn(V, Transform<F>) -> V>(
    facts: Seq<FactSpec<F>>,
    eval: E,
    a: Seq<char>,
    b: Seq<char>,
    x: V,
    out: Option<V>,
)
    requires
        !mentions(facts, a) || !mentions(facts, b),
        converts(graph_of(facts), eval, a, b, x, out),
    ensures
        out is None,
{
    let g = graph_of(facts);
    lemma_graph_of_units(facts, a);
    lemma_graph_of_units(facts, b);
    lemma_answer_iff_connected(g, eval, a, b, x, out);
    if connected(g, a, b) {
        let p = choose|p: Seq<Seq<char>>| #[trigger] is_walk(g, p) && p[0] == a && p.last() == b;
        if p.len() > 1 {
            assert(adjacent(g, p[p.len() - 2], p[p.len() - 2 + 1]));
        }
    }
}

} // verus!
