use crate::error::QueryError;
use crate::model::{
    adjacent, answers, applies, chain_along, connected, converts, graph_of, is_route, is_walk,
    lemma_applies_step, with_edge, with_fact, Conversions,
};
use crate::search::{
    arc, closed_at, descends, laid_out, lemma_descends_prepend, lemma_descent_is_walk,
    lemma_search_exhausted, lemma_search_meet, lemma_search_pop, lemma_search_scanned,
    lemma_search_start, search_tree, searching, units_at, Search,
};
use crate::transform::{facts_spec, Fact, Query, Transform};
use crate::unit_map::UnitMap;
use std::collections::VecDeque;
use vstd::prelude::*;

verus! {

/// One unit of the graph with the edges that leave it, each kept under the
/// name of the unit it leads to.
pub struct GraphNode<F> {
    unit: String,
    neighbour_node_keys: UnitMap<Transform<F>>,
}

impl<F> GraphNode<F> {
    /// The name of the unit.
    pub closed spec fn name(&self) -> Seq<char> {
        self.unit@
    }

    /// The edges that leave the unit: neighbour to transform.
    pub closed spec fn neighbours(&self) -> Map<Seq<char>, Transform<F>> {
        self.neighbour_node_keys@
    }
}

/// Two nodes are the same node when they stand for the same unit, whatever
/// edges they hold.
impl<F> PartialEq for GraphNode<F> {
    fn eq(&self, other: &Self) -> (same: bool) {
        self.unit == other.unit
    }
}

impl<F> vstd::std_specs::cmp::PartialEqSpecImpl for GraphNode<F> {
    open spec fn obeys_eq_spec() -> bool {
        true
    }

    open spec fn eq_spec(&self, other: &Self) -> bool {
        self.name() == other.name()
    }
}

impl<F: Copy> GraphNode<F> {
    /// A node for `unit` with no edge yet.
    pub fn new(unit: &str) -> (node: Self)
        ensures
            node.name() == unit@,
            node.neighbours() == Map::<Seq<char>, Transform<F>>::empty(),
    {
        GraphNode { unit: unit.to_owned(), neighbour_node_keys: UnitMap::new() }
    }

    /// The name of the unit.
    pub fn unit(&self) -> (unit: &str)
        ensures
            unit@ == self.name(),
    {
        self.unit.as_str()
    }

    /// The transform of the edge to `neighbour`, if there is one.
    pub fn transform_to(&self, neighbour: &str) -> (t: Option<Transform<F>>)
        ensures
            t == if self.neighbours().dom().contains(neighbour@) {
                Some(self.neighbours()[neighbour@])
            } else {
                None
            },
    {
        let key = neighbour.to_owned();
        match self.neighbour_node_keys.get(&key) {
            Some(t) => Some(*t),
            None => None,
        }
    }
}

/// The units that `nodes` holds, each with its edges.
spec fn conversions<F>(nodes: UnitMap<GraphNode<F>>) -> Conversions<F> {
    Map::new(|u: Seq<char>| nodes@.dom().contains(u), |u: Seq<char>| nodes@[u].neighbours())
}

/// Every node is kept under its own name.
spec fn named<F>(nodes: UnitMap<GraphNode<F>>) -> bool {
    forall|i: int| 0 <= i < nodes.keys().len() ==> (#[trigger] nodes.values()[i]).name() == nodes.keys()[i]
}

/// The conversion graph: the units by name, each with its edges.  It is built
/// once from a list of facts and only read afterwards.
pub struct Graph<F> {
    graph: UnitMap<GraphNode<F>>,
}

impl<F> View for Graph<F> {
    type V = Conversions<F>;

    closed spec fn view(&self) -> Conversions<F> {
        conversions(self.graph)
    }
}

/// The names of the nodes of a path, in order.
pub open spec fn names_of<F>(nodes: Seq<&GraphNode<F>>) -> Seq<Seq<char>> {
    Seq::new(nodes.len(), |k: int| nodes[k].name())
}

impl<F> Graph<F> {
    #[verifier::type_invariant]
    spec fn wf(&self) -> bool {
        named(self.graph)
    }

    /// The edges of the node at each position.
    spec fn edges(&self) -> Seq<Map<Seq<char>, Transform<F>>> {
        Seq::new(self.graph.values().len(), |i: int| self.graph.values()[i].neighbours())
    }

    /// By position, the graph is its keys with the edges of each node.
    proof fn lemma_laid_out(&self)
        requires
            self.graph.wf(),
        ensures
            laid_out(self@, self.graph.keys(), self.edges()),
    {
        assert forall|i: int| 0 <= i < self.graph.keys().len() implies self@[#[trigger] self.graph.keys()[i]]
            == self.edges()[i] by {
            self.graph.lemma_entry_at(i);
        }
    }
}

impl<F: Copy> Graph<F> {
    /// Whether `unit` is a unit of the graph.
    pub fn contains_unit(&self, unit: &str) -> (known: bool)
        ensures
            known == self@.dom().contains(unit@),
    {
        let key = unit.to_owned();
        self.graph.get(&key).is_some()
    }

    /// Searches depth-first for a way from `start_node_key` to
    /// `search_node_key` and returns the nodes on it, the start in front.
    ///
    /// There is a path exactly when the two units are connected; a name that
    /// is no unit of the graph is connected to nothing.  Every node is marked
    /// when it is first met and keeps the node that met it as its parent, so
    /// the path passes no unit twice, and a unit with an edge straight to the
    /// target is followed by the target.
    pub fn dfs(&self, start_node_key: &str, search_node_key: &str) -> (path: Option<
        VecDeque<&GraphNode<F>>,
    >)
        ensures
            match path {
                Some(nodes) => {
                    &&& is_route(self@, names_of(nodes@), start_node_key@, search_node_key@)
                    &&& forall|k: int|
                        0 <= k < nodes@.len() ==> self@[(#[trigger] nodes@[k]).name()]
                            == nodes@[k].neighbours()
                },
                None => !connected(self@, start_node_key@, search_node_key@),
            },
    {
        proof {
            use_type_invariant(self);
            use_type_invariant(&self.graph);
            self.lemma_laid_out();
        }
        let ghost keys = self.graph.keys();
        let ghost edges = self.edges();
        let start = start_node_key.to_owned();
        let goal = search_node_key.to_owned();
        let first = match self.graph.position(&start) {
            Some(first) => first,
            None => {
                return None;
            },
        };
        let count = self.graph.len();
        let mut visited: Vec<bool> = vec![false; count];
        let mut parent_keys: Vec<usize> = vec![0usize; count];
        let mut stack: Vec<usize> = Vec::new();

        // the search starts with its root marked and waiting
        visited[first] = true;
        stack.push(first);
        let ghost mut state = Search::start(count as nat, first);
        proof {
            lemma_search_start(keys, edges, goal@, first);
            assert(visited@ =~= state.marked);
            assert(parent_keys@ =~= state.parent);
            assert(stack@ =~= state.stack);
        }

        while stack.len() > 0
            invariant
                keys == self.graph.keys(),
                edges == self.edges(),
                keys.no_duplicates(),
                named(self.graph),
                count == keys.len(),
                count == self.graph.values().len(),
                first < count,
                keys[first as int] == start_node_key@,
                goal@ == search_node_key@,
                searching(keys, edges, goal@, state, None),
                state.first == first,
                state.marked == visited@,
                state.parent == parent_keys@,
                state.stack == stack@,
            decreases state.budget(),
        {
            let ghost budget = state.budget();
            proof {
                lemma_search_pop(keys, edges, goal@, state);
            }
            let head = stack.pop().unwrap();
            let node = self.graph.value_at(head);

            if node.unit == goal {
                let path = self.trace_back(
                    first,
                    head,
                    &parent_keys,
                    Ghost(visited@),
                    Ghost(state.depth),
                );
                proof {
                    use_type_invariant(&self.graph);
                    self.lemma_laid_out();
                    if first != head && adjacent(self@, keys[first as int], keys[head as int]) {
                        assert(arc(keys, edges, first as int, head as int));
                    }
                }
                return Some(path);
            }
            proof {
                state = state.popped();
                use_type_invariant(&node.neighbour_node_keys);
            }
            let ghost near = node.neighbour_node_keys.keys();

            let mut j: usize = 0;
            while j < node.neighbour_node_keys.len()
                invariant
                    keys == self.graph.keys(),
                    edges == self.edges(),
                    count == keys.len(),
                    count == self.graph.values().len(),
                    keys.no_duplicates(),
                    head < count,
                    visited@.len() == count,
                    parent_keys@.len() == count,
                    searching(keys, edges, goal@, state, Some(head)),
                    state.first == first,
                    state.marked == visited@,
                    state.parent == parent_keys@,
                    state.stack == stack@,
                    state.budget() < budget,
                    *node == self.graph.values()[head as int],
                    near == node.neighbour_node_keys.keys(),
                    node.neighbour_node_keys.wf(),
                    j <= near.len(),
                    forall|m: int, l: int|
                        0 <= m < count && 0 <= l < j && keys[m] == #[trigger] near[l] ==> #[trigger] visited@[m],
                decreases near.len() - j,
            {
                let neighbour_key = node.neighbour_node_keys.key_at(j);
                match self.graph.position(neighbour_key) {
                    Some(neighbour) => {
                        if !visited[neighbour] {
                            proof {
                                assert(edges[head as int].dom().contains(near[j as int])) by {
                                    assert(near.contains(near[j as int]));
                                }
                                lemma_search_meet(keys, edges, goal@, state, head, neighbour);
                                state = state.met(head, neighbour);
                            }
                            visited[neighbour] = true;
                            parent_keys[neighbour] = head;
                            stack.push(neighbour);
                        }
                    },
                    None => {
                        assert(forall|m: int| 0 <= m < count ==> keys.contains(#[trigger] keys[m]));
                    },
                }
                j += 1;
            }
            proof {
                assert(closed_at(keys, edges, visited@, head as int)) by {
                    assert forall|m: int|
                        0 <= m < count && arc(keys, edges, head as int, m) implies #[trigger] visited@[m] by {
                        assert(near.contains(keys[m]));
                        let l = near.index_of(keys[m]);
                        assert(near[l] == keys[m]);
                    }
                }
                lemma_search_scanned(keys, edges, goal@, state, head);
            }
        }
        proof {
            use_type_invariant(&self.graph);
            self.lemma_laid_out();
            lemma_search_exhausted(self@, keys, edges, goal@, state);
        }
        None
    }

    /// Converts the value of `query` from its source unit to its target
    /// unit: finds a path between the two and puts the value through the
    /// transform of each edge on it, in order, by `eval`.
    ///
    /// The answer is `None` exactly when the two units are not connected,
    /// which is the case whenever one of them is unknown.  A unit of the
    /// graph converts to itself unchanged.
    pub fn query<V: Copy>(&self, query: &Query<'_, V>, eval: impl Fn(V, Transform<F>) -> V) -> (out:
        Option<V>)
        requires
            forall|v: V, t: Transform<F>| eval.requires((v, t)),
        ensures
            converts(self@, eval, query.1@, query.2@, query.0, out),
    {
        let path = match self.dfs(query.1, query.2) {
            Some(path) => path,
            None => {
                return None;
            },
        };
        proof {
            let units = names_of(path@);
            assert forall|k: int| 0 <= k < path@.len() - 1 implies {
                &&& (#[trigger] path@[k]).neighbours().dom().contains(path@[k + 1].name())
                &&& path@[k].neighbours()[path@[k + 1].name()] == chain_along(self@, units)[k]
            } by {
                assert(adjacent(self@, units[k], units[k + 1]));
            }
        }
        let ghost units = names_of(path@);
        let ghost chain = chain_along(self@, units);
        let mut start_value = query.0;
        let mut i: usize = 0;
        assert(chain.take(0) =~= Seq::<Transform<F>>::empty());
        while i + 1 < path.len()
            invariant
                forall|v: V, t: Transform<F>| eval.requires((v, t)),
                chain.len() == path@.len() - 1,
                forall|k: int|
                    0 <= k < path@.len() - 1 ==> {
                        &&& (#[trigger] path@[k]).neighbours().dom().contains(path@[k + 1].name())
                        &&& path@[k].neighbours()[path@[k + 1].name()] == chain[k]
                    },
                i < path.len(),
                applies(eval, chain.take(i as int), query.0, start_value),
            decreases path.len() - i,
        {
            let node = path[i];
            let next_node = path[i + 1];
            if let Some(conversion) = node.transform_to(next_node.unit()) {
                let ghost before = start_value;
                start_value = eval(start_value, conversion);
                proof {
                    let done = chain.take(i + 1);
                    assert(done.drop_last() =~= chain.take(i as int));
                    lemma_applies_step(eval, done, query.0, before, start_value);
                }
            }
            i += 1;
        }
        assert(chain.take(i as int) =~= chain);
        Some(start_value)
    }

    /// Converts like `query`, and says why where there is no answer: a unit
    /// that the graph does not know, or two known units that nothing joins.
    pub fn try_query<V: Copy>(
        &self,
        query: &Query<'_, V>,
        eval: impl Fn(V, Transform<F>) -> V,
    ) -> (out: Result<V, QueryError>)
        requires
            forall|v: V, t: Transform<F>| eval.requires((v, t)),
        ensures
            answers(self@, eval, query.1@, query.2@, query.0, out),
    {
        if !self.contains_unit(query.1) || !self.contains_unit(query.2) {
            return Err(QueryError::UnitNotFound);
        }
        match self.query(query, eval) {
            Some(value) => Ok(value),
            None => Err(QueryError::NoPath),
        }
    }

    /// Follows the parent links from `last` back to `first` and returns the
    /// nodes on the way, `first` in front.
    fn trace_back(
        &self,
        first: usize,
        last: usize,
        parent_keys: &Vec<usize>,
        visited: Ghost<Seq<bool>>,
        depth: Ghost<Seq<nat>>,
    ) -> (path: VecDeque<&GraphNode<F>>)
        requires
            search_tree(self.graph.keys(), self.edges(), first as int, visited@, parent_keys@, depth@),
            last < self.graph.keys().len(),
            visited@[last as int],
        ensures
            is_walk(self@, names_of(path@)),
            names_of(path@)[0] == self.graph.keys()[first as int],
            names_of(path@).last() == self.graph.keys()[last as int],
            names_of(path@).no_duplicates(),
            last != first && parent_keys@[last as int] == first ==> path@.len() == 2,
            forall|k: int|
                0 <= k < path@.len() ==> self@[(#[trigger] path@[k]).name()] == path@[k].neighbours(),
    {
        proof {
            use_type_invariant(self);
            use_type_invariant(&self.graph);
            self.lemma_laid_out();
        }
        let ghost keys = self.graph.keys();
        let ghost edges = self.edges();
        let mut path: VecDeque<&GraphNode<F>> = VecDeque::new();
        let ghost mut at: Seq<int> = Seq::empty();
        let mut head = last;
        while head != first
            invariant
                keys == self.graph.keys(),
                edges == self.edges(),
                search_tree(keys, edges, first as int, visited@, parent_keys@, depth@),
                head < keys.len(),
                visited@[head as int],
                at.len() == path@.len(),
                descends(keys, edges, depth@, at),
                forall|k: int| 0 <= k < at.len() ==> *(#[trigger] path@[k]) == self.graph.values()[at[k]],
                at.len() > 0 ==> {
                    &&& arc(keys, edges, head as int, at[0])
                    &&& depth@[head as int] < depth@[at[0]]
                    &&& at.last() == last
                },
                at.len() == 0 ==> head == last,
                last != first && parent_keys@[last as int] == first ==> at.len() == 0 || (at.len() == 1
                    && head == first),
            decreases depth@[head as int],
        {
            path.push_front(self.graph.value_at(head));
            proof {
                lemma_descends_prepend(keys, edges, depth@, head as int, at);
                at = seq![head as int] + at;
            }
            head = parent_keys[head];
        }
        path.push_front(self.graph.value_at(first));
        proof {
            lemma_descends_prepend(keys, edges, depth@, first as int, at);
            at = seq![first as int] + at;
            lemma_descent_is_walk(self@, keys, edges, depth@, at);
            assert(names_of(path@) =~= units_at(keys, at));
            assert forall|k: int| 0 <= k < path@.len() implies self@[(#[trigger] path@[k]).name()]
                == path@[k].neighbours() by {
                self.graph.lemma_entry_at(at[k]);
            }
        }
        path
    }
}

/// Sets the edge from `from` to `to`, with a fresh node for `from` where the
/// graph has none yet.
fn insert_edge<F: Copy>(
    nodes: &mut UnitMap<GraphNode<F>>,
    from: &str,
    to: &str,
    transform: Transform<F>,
)
    requires
        named(*old(nodes)),
    ensures
        named(*final(nodes)),
        conversions(*final(nodes)) == with_edge(conversions(*old(nodes)), from@, to@, transform),
{
    proof {
        use_type_invariant(&*nodes);
    }
    let key = from.to_owned();
    let at = match nodes.position(&key) {
        Some(at) => at,
        None => {
            nodes.insert(key, GraphNode::new(from));
            nodes.len() - 1
        },
    };
    proof {
        use_type_invariant(&*nodes);
    }
    let node = nodes.value_at_mut(at);
    node.neighbour_node_keys.insert(to.to_owned(), transform);
    proof {
        use_type_invariant(&*nodes);
        let before = conversions(*old(nodes));
        let after = conversions(*nodes);
        let target = with_edge(before, from@, to@, transform);
        assert(nodes.keys()[at as int] == from@);
        assert forall|u: Seq<char>| after.dom().contains(u) <==> target.dom().contains(u) by {
            if old(nodes).keys().contains(u) {
                let p = old(nodes).keys().index_of(u);
                assert(nodes.keys()[p] == u);
            }
            if nodes.keys().contains(u) && u != from@ {
                let p = nodes.keys().index_of(u);
                assert(old(nodes).keys()[p] == u);
            }
        }
        assert forall|u: Seq<char>| #[trigger] after.dom().contains(u) implies after[u]
            == target[u] by {
            let p = nodes.keys().index_of(u);
            nodes.lemma_entry_at(p);
            if u != from@ {
                assert(old(nodes).keys()[p] == u);
                old(nodes).lemma_entry_at(p);
            } else {
                assert(p == at);
                if old(nodes).keys().contains(from@) {
                    old(nodes).lemma_entry_at(p);
                }
            }
        }
        assert(after =~= target);
    }
}

/// Builds the graph of `facts`.  Each fact adds its two units where they are
/// new, the edge forward by multiplication and the edge backward by division;
/// where two facts name the same ordered pair, the later one stands.
pub fn build_unit_graph<F: Copy>(facts: &Vec<Fact<'_, F>>) -> (g: Graph<F>)
    ensures
        g@ == graph_of(facts_spec(facts@)),
{
    let mut nodes: UnitMap<GraphNode<F>> = UnitMap::new();
    let ghost all = facts_spec(facts@);
    let mut i: usize = 0;
    assert(conversions(nodes) =~= graph_of(all.take(0)));
    while i < facts.len()
        invariant
            i <= facts.len(),
            all == facts_spec(facts@),
            named(nodes),
            conversions(nodes) == graph_of(all.take(i as int)),
        decreases facts.len() - i,
    {
        let from_unit = facts[i].0;
        let factor = facts[i].1;
        let to_unit = facts[i].2;
        insert_edge(&mut nodes, from_unit, to_unit, Transform::Multiply(factor));
        insert_edge(&mut nodes, to_unit, from_unit, Transform::Divide(factor));
        proof {
            let next = all.take(i + 1);
            assert(next.drop_last() =~= all.take(i as int));
            assert(next.last() == all[i as int]);
            assert(conversions(nodes) == with_fact(graph_of(all.take(i as int)), all[i as int]));
        }
        i += 1;
    }
    assert(all.take(facts.len() as int) =~= all);
    Graph { graph: nodes }
}

} // verus!
