use crate::model::{adjacent, connected, is_walk, Conversions};
use crate::transform::Transform;
use vstd::prelude::*;
use vstd::set_lib::{lemma_int_range, set_int_range};

verus! {

/// The graph `g` laid out by position: `keys` lists its units, each once, and
/// `edges[i]` holds the edges that leave `keys[i]`.
pub open spec fn laid_out<F>(
    g: Conversions<F>,
    keys: Seq<Seq<char>>,
    edges: Seq<Map<Seq<char>, Transform<F>>>,
) -> bool {
    &&& keys.no_duplicates()
    &&& edges.len() == keys.len()
    &&& forall|u: Seq<char>| g.dom().contains(u) <==> keys.contains(u)
    &&& forall|i: int| 0 <= i < keys.len() ==> g[#[trigger] keys[i]] == edges[i]
}

/// An edge leads from the unit at position `i` to the unit at position `m`.
pub open spec fn arc<F>(
    keys: Seq<Seq<char>>,
    edges: Seq<Map<Seq<char>, Transform<F>>>,
    i: int,
    m: int,
) -> bool {
    &&& 0 <= i < keys.len()
    &&& 0 <= m < keys.len()
    &&& edges[i].dom().contains(keys[m])
}

/// Every unit that the unit at position `i` has an edge to is marked.
pub open spec fn closed_at<F>(
    keys: Seq<Seq<char>>,
    edges: Seq<Map<Seq<char>, Transform<F>>>,
    marked: Seq<bool>,
    i: int,
) -> bool {
    forall|m: int| 0 <= m < keys.len() && arc(keys, edges, i, m) ==> #[trigger] marked[m]
}

/// A search tree rooted at position `first`: every other marked position has
/// a marked parent with an edge to it, one level closer to the root.
pub open spec fn search_tree<F>(
    keys: Seq<Seq<char>>,
    edges: Seq<Map<Seq<char>, Transform<F>>>,
    first: int,
    marked: Seq<bool>,
    parent: Seq<usize>,
    depth: Seq<nat>,
) -> bool {
    &&& edges.len() == keys.len()
    &&& marked.len() == keys.len()
    &&& parent.len() == keys.len()
    &&& depth.len() == keys.len()
    &&& 0 <= first < keys.len()
    &&& marked[first]
    &&& depth[first] == 0
    &&& forall|m: int|
        0 <= m < keys.len() && marked[m] && m != first ==> {
            &&& (#[trigger] parent[m]) < keys.len()
            &&& marked[parent[m] as int]
            &&& arc(keys, edges, parent[m] as int, m)
            &&& depth[m] == depth[parent[m] as int] + 1
        }
}

/// An edge leads from position `at[k]` to position `at[k + 1]`, which lies
/// deeper in the tree.
pub open spec fn descends_at<F>(
    keys: Seq<Seq<char>>,
    edges: Seq<Map<Seq<char>, Transform<F>>>,
    depth: Seq<nat>,
    at: Seq<int>,
    k: int,
) -> bool {
    &&& arc(keys, edges, at[k], at[k + 1])
    &&& depth[at[k]] < depth[at[k + 1]]
}

/// A sequence of positions that follows edges, each step one further from
/// the root.
pub open spec fn descends<F>(
    keys: Seq<Seq<char>>,
    edges: Seq<Map<Seq<char>, Transform<F>>>,
    depth: Seq<nat>,
    at: Seq<int>,
) -> bool {
    &&& forall|k: int| 0 <= k < at.len() ==> 0 <= #[trigger] at[k] < keys.len()
    &&& forall|k: int| 0 <= k < at.len() - 1 ==> #[trigger] descends_at(keys, edges, depth, at, k)
}

/// The units at a sequence of positions.
pub open spec fn units_at(keys: Seq<Seq<char>>, at: Seq<int>) -> Seq<Seq<char>> {
    Seq::new(at.len(), |k: int| keys[at[k]])
}

/// A descent stays one when a position with an edge to its front, and less
/// deep than its front, is put before it.
pub proof fn lemma_descends_prepend<F>(
    keys: Seq<Seq<char>>,
    edges: Seq<Map<Seq<char>, Transform<F>>>,
    depth: Seq<nat>,
    head: int,
    at: Seq<int>,
)
    requires
        descends(keys, edges, depth, at),
        0 <= head < keys.len(),
        at.len() > 0 ==> arc(keys, edges, head, at[0]) && depth[head] < depth[at[0]],
    ensures
        descends(keys, edges, depth, seq![head] + at),
{
    let longer = seq![head] + at;
    assert forall|k: int| 0 <= k < longer.len() implies 0 <= #[trigger] longer[k] < keys.len() by {
        if k > 0 {
            assert(longer[k] == at[k - 1]);
        }
    }
    assert forall|k: int| 0 <= k < longer.len() - 1 implies #[trigger] descends_at(
        keys,
        edges,
        depth,
        longer,
        k,
    ) by {
        assert(longer[k + 1] == at[k]);
        if k > 0 {
            assert(longer[k] == at[k - 1]);
            assert(descends_at(keys, edges, depth, at, k - 1));
        }
    }
}

/// Along a descent the depth grows strictly.
pub proof fn lemma_descends_deeper<F>(
    keys: Seq<Seq<char>>,
    edges: Seq<Map<Seq<char>, Transform<F>>>,
    depth: Seq<nat>,
    at: Seq<int>,
    k: int,
    l: int,
)
    requires
        descends(keys, edges, depth, at),
        0 <= k < l < at.len(),
    ensures
        depth[at[k]] < depth[at[l]],
    decreases l - k,
{
    assert(descends_at(keys, edges, depth, at, l - 1));
    if k < l - 1 {
        lemma_descends_deeper(keys, edges, depth, at, k, l - 1);
    }
}

/// The units along a descent form a walk of the graph that passes no unit
/// twice.
pub proof fn lemma_descent_is_walk<F>(
    g: Conversions<F>,
    keys: Seq<Seq<char>>,
    edges: Seq<Map<Seq<char>, Transform<F>>>,
    depth: Seq<nat>,
    at: Seq<int>,
)
    requires
        laid_out(g, keys, edges),
        descends(keys, edges, depth, at),
        at.len() > 0,
    ensures
        is_walk(g, units_at(keys, at)),
        units_at(keys, at).no_duplicates(),
{
    let units = units_at(keys, at);
    assert(keys.contains(keys[at[0]]));
    assert forall|k: int| 0 <= k < units.len() - 1 implies adjacent(g, #[trigger] units[k], units[k + 1]) by {
        assert(descends_at(keys, edges, depth, at, k));
        assert(keys.contains(keys[at[k]]));
        assert(keys.contains(keys[at[k + 1]]));
        assert(g[keys[at[k]]] == edges[at[k]]);
    }
    assert forall|k: int, l: int| 0 <= k < l < units.len() implies units[k] != units[l] by {
        lemma_descends_deeper(keys, edges, depth, at, k, l);
    }
}

/// The unit `u` sits at a marked position.
pub open spec fn marked_unit(keys: Seq<Seq<char>>, marked: Seq<bool>, u: Seq<char>) -> bool {
    exists|i: int| 0 <= i < keys.len() && #[trigger] marked[i] && keys[i] == u
}

/// Where the marked positions are closed under edges, a walk that starts at
/// a marked unit never leaves them.
pub proof fn lemma_walk_stays_marked<F>(
    g: Conversions<F>,
    keys: Seq<Seq<char>>,
    edges: Seq<Map<Seq<char>, Transform<F>>>,
    marked: Seq<bool>,
    p: Seq<Seq<char>>,
    k: int,
)
    requires
        laid_out(g, keys, edges),
        marked.len() == keys.len(),
        forall|i: int| 0 <= i < keys.len() && #[trigger] marked[i] ==> closed_at(keys, edges, marked, i),
        is_walk(g, p),
        marked_unit(keys, marked, p[0]),
        0 <= k < p.len(),
    ensures
        marked_unit(keys, marked, p[k]),
    decreases k,
{
    if k > 0 {
        lemma_walk_stays_marked(g, keys, edges, marked, p, k - 1);
        let i = choose|i: int| 0 <= i < keys.len() && #[trigger] marked[i] && keys[i] == p[k - 1];
        assert(adjacent(g, p[k - 1], p[k - 1 + 1]));
        assert(keys.contains(p[k]));
        let m = keys.index_of(p[k]);
        assert(keys[m] == p[k]);
        assert(g[keys[i]] == edges[i]);
        assert(arc(keys, edges, i, m));
        assert(closed_at(keys, edges, marked, i));
        assert(marked[m]);
    }
}

/// Where a search stands: the root, the marks, the parent links with the
/// depth of each marked position, the positions still to be scanned, and the
/// positions not yet marked.
pub struct Search {
    pub first: usize,
    pub marked: Seq<bool>,
    pub parent: Seq<usize>,
    pub depth: Seq<nat>,
    pub stack: Seq<usize>,
    pub unseen: Set<int>,
}

impl Search {
    /// The search before its first step: only the root is marked, and it
    /// waits on the stack.
    pub open spec fn start(count: nat, first: usize) -> Search {
        Search {
            first,
            marked: Seq::new(count, |i: int| false).update(first as int, true),
            parent: Seq::new(count, |i: int| 0usize),
            depth: Seq::new(count, |i: int| 0nat),
            stack: seq![first],
            unseen: set_int_range(0, count as int).remove(first as int),
        }
    }

    /// The search after the top of the stack was taken off.
    pub open spec fn popped(self) -> Search {
        Search { stack: self.stack.drop_last(), ..self }
    }

    /// The search after position `m` was met from position `head`.
    pub open spec fn met(self, head: usize, m: usize) -> Search {
        Search {
            first: self.first,
            marked: self.marked.update(m as int, true),
            parent: self.parent.update(m as int, head),
            depth: self.depth.update(m as int, self.depth[head as int] + 1),
            stack: self.stack.push(m),
            unseen: self.unseen.remove(m as int),
        }
    }

    /// What is left to do, as a number that every step lowers.
    pub open spec fn budget(self) -> nat {
        2 * self.unseen.len() + self.stack.len()
    }
}

/// What holds of a search for `goal` between two steps.  `busy` is the
/// position whose edges are being scanned, if any.  Every marked position
/// that neither waits on the stack nor is being scanned has all its
/// neighbours marked; the goal, once marked, waits on the stack; and what the
/// root has an edge to has the root as its parent.
#[verifier::opaque]
pub open spec fn searching<F>(
    keys: Seq<Seq<char>>,
    edges: Seq<Map<Seq<char>, Transform<F>>>,
    goal: Seq<char>,
    s: Search,
    busy: Option<usize>,
) -> bool {
    &&& search_tree(keys, edges, s.first as int, s.marked, s.parent, s.depth)
    &&& s.stack.no_duplicates()
    &&& forall|k: int|
        0 <= k < s.stack.len() ==> (#[trigger] s.stack[k]) < keys.len() && s.marked[s.stack[k] as int]
    &&& forall|i: usize|
        i < keys.len() && #[trigger] s.marked[i as int] && !s.stack.contains(i) && busy != Some(i)
            ==> closed_at(keys, edges, s.marked, i as int)
    &&& forall|i: usize|
        i < keys.len() && #[trigger] s.marked[i as int] && keys[i as int] == goal && busy != Some(i)
            ==> s.stack.contains(i)
    &&& forall|m: int|
        0 <= m < keys.len() && s.marked[m] && m != s.first && arc(keys, edges, s.first as int, m)
            ==> #[trigger] s.parent[m] == s.first
    &&& s.stack.contains(s.first) ==> forall|m: int|
        0 <= m < keys.len() && #[trigger] s.marked[m] ==> m == s.first
    &&& s.unseen.finite()
    &&& forall|m: int| s.unseen.contains(m) <==> 0 <= m < keys.len() && !s.marked[m]
    &&& match busy {
        Some(head) => {
            &&& head < keys.len()
            &&& s.marked[head as int]
            &&& keys[head as int] != goal
            &&& !s.stack.contains(head)
            &&& !s.stack.contains(s.first)
        },
        None => true,
    }
}

/// A search starts in order.
pub proof fn lemma_search_start<F>(
    keys: Seq<Seq<char>>,
    edges: Seq<Map<Seq<char>, Transform<F>>>,
    goal: Seq<char>,
    first: usize,
)
    requires
        edges.len() == keys.len(),
        first < keys.len(),
    ensures
        searching(keys, edges, goal, Search::start(keys.len(), first), None),
{
    reveal(searching);
    let s = Search::start(keys.len(), first);
    lemma_int_range(0, keys.len() as int);
    assert(s.stack[0] == first);
    assert forall|i: usize| s.stack.contains(i) implies i == first by {
        let k = s.stack.index_of(i);
        assert(s.stack[k] == i);
    }
}

/// Taking the top off the stack leaves the search in order, with that
/// position being scanned, unless it is the goal.
pub proof fn lemma_search_pop<F>(
    keys: Seq<Seq<char>>,
    edges: Seq<Map<Seq<char>, Transform<F>>>,
    goal: Seq<char>,
    s: Search,
)
    requires
        searching(keys, edges, goal, s, None),
        s.stack.len() > 0,
    ensures
        s.stack.last() < keys.len(),
        s.marked[s.stack.last() as int],
        search_tree(keys, edges, s.first as int, s.marked, s.parent, s.depth),
        s.stack.last() != s.first && arc(keys, edges, s.first as int, s.stack.last() as int)
            ==> s.parent[s.stack.last() as int] == s.first,
        keys[s.stack.last() as int] != goal ==> searching(
            keys,
            edges,
            goal,
            s.popped(),
            Some(s.stack.last()),
        ),
        s.popped().budget() < s.budget(),
{
    reveal(searching);
    let head = s.stack.last();
    let rest = s.stack.drop_last();
    assert(s.stack[s.stack.len() - 1] == head);
    assert forall|i: usize| s.stack.contains(i) implies rest.contains(i) || i == head by {
        let k = s.stack.index_of(i);
        if k < rest.len() {
            assert(rest[k] == i);
        }
    }
    assert forall|i: usize| rest.contains(i) implies s.stack.contains(i) && i != head by {
        let k = rest.index_of(i);
        assert(s.stack[k] == i);
    }
    if rest.contains(s.first) {
        assert(s.stack.contains(s.first));
        assert(s.marked[head as int]);
    }
}

/// Meeting an unmarked neighbour of the position being scanned leaves the
/// search in order and lowers what is left to do.
pub proof fn lemma_search_meet<F>(
    keys: Seq<Seq<char>>,
    edges: Seq<Map<Seq<char>, Transform<F>>>,
    goal: Seq<char>,
    s: Search,
    head: usize,
    m: usize,
)
    requires
        searching(keys, edges, goal, s, Some(head)),
        arc(keys, edges, head as int, m as int),
        !s.marked[m as int],
    ensures
        searching(keys, edges, goal, s.met(head, m), Some(head)),
        s.met(head, m).budget() < s.budget(),
        s.marked.len() == keys.len(),
        s.parent.len() == keys.len(),
{
    reveal(searching);
    let t = s.met(head, m);
    assert(s.unseen.contains(m as int));
    assert forall|i: usize| t.stack.contains(i) <==> s.stack.contains(i) || i == m by {
        if t.stack.contains(i) {
            let k = t.stack.index_of(i);
            if k < s.stack.len() {
                assert(s.stack[k] == i);
            }
        }
        if s.stack.contains(i) {
            let k = s.stack.index_of(i);
            assert(t.stack[k] == i);
        }
        assert(t.stack[s.stack.len() as int] == m);
    }
    assert(!s.stack.contains(m)) by {
        if s.stack.contains(m) {
            let k = s.stack.index_of(m);
            assert(s.marked[s.stack[k] as int]);
        }
    }
    assert(t.stack.no_duplicates());
    assert(search_tree(keys, edges, t.first as int, t.marked, t.parent, t.depth)) by {
        assert forall|i: int| 0 <= i < keys.len() && t.marked[i] && i != t.first implies {
            &&& (#[trigger] t.parent[i]) < keys.len()
            &&& t.marked[t.parent[i] as int]
            &&& arc(keys, edges, t.parent[i] as int, i)
            &&& t.depth[i] == t.depth[t.parent[i] as int] + 1
        } by {
            if i != m {
                assert(s.parent[i] < keys.len());
            }
        }
    }
    assert forall|i: usize|
        i < keys.len() && #[trigger] t.marked[i as int] && !t.stack.contains(i) && i
            != head implies closed_at(keys, edges, t.marked, i as int) by {
        assert(s.marked[i as int]);
        assert(closed_at(keys, edges, s.marked, i as int));
    }
    assert forall|i: int|
        0 <= i < keys.len() && t.marked[i] && i != t.first && arc(
            keys,
            edges,
            t.first as int,
            i,
        ) implies #[trigger] t.parent[i] == t.first by {
        if i == m && head != s.first {
            assert(s.marked[s.first as int]);
            assert(closed_at(keys, edges, s.marked, s.first as int));
        } else if i != m {
            assert(s.parent[i] == s.first);
        }
    }
    assert forall|i: usize|
        i < keys.len() && #[trigger] t.marked[i as int] && keys[i as int] == goal && i
            != head implies t.stack.contains(i) by {
        if i != m {
            assert(s.marked[i as int]);
        }
    }
}

/// Once all neighbours of the position being scanned are marked, the search
/// is in order with nothing being scanned.
pub proof fn lemma_search_scanned<F>(
    keys: Seq<Seq<char>>,
    edges: Seq<Map<Seq<char>, Transform<F>>>,
    goal: Seq<char>,
    s: Search,
    head: usize,
)
    requires
        searching(keys, edges, goal, s, Some(head)),
        closed_at(keys, edges, s.marked, head as int),
    ensures
        searching(keys, edges, goal, s, None),
{
    reveal(searching);
}

/// A search that has run out of positions to scan has marked every unit
/// connected to its root, and the goal is none of them.
pub proof fn lemma_search_exhausted<F>(
    g: Conversions<F>,
    keys: Seq<Seq<char>>,
    edges: Seq<Map<Seq<char>, Transform<F>>>,
    goal: Seq<char>,
    s: Search,
)
    requires
        laid_out(g, keys, edges),
        keys.len() <= usize::MAX,
        searching(keys, edges, goal, s, None),
        s.stack.len() == 0,
    ensures
        !connected(g, keys[s.first as int], goal),
{
    reveal(searching);
    if connected(g, keys[s.first as int], goal) {
        let p = choose|p: Seq<Seq<char>>| #[trigger]
            is_walk(g, p) && p[0] == keys[s.first as int] && p.last() == goal;
        assert(marked_unit(keys, s.marked, p[0])) by {
            assert(s.marked[s.first as int] && keys[s.first as int] == p[0]);
        }
        assert forall|i: int| 0 <= i < keys.len() && #[trigger] s.marked[i] implies closed_at(
            keys,
            edges,
            s.marked,
            i,
        ) by {
            assert(s.marked[(i as usize) as int]);
        }
        lemma_walk_stays_marked(g, keys, edges, s.marked, p, p.len() - 1);
        let i = choose|i: int| 0 <= i < keys.len() && #[trigger] s.marked[i] && keys[i] == p.last();
        assert(s.marked[(i as usize) as int]);
        assert(s.stack.contains(i as usize));
    }
}

} // verus!
