//! Directed graphs given by their set of edges: walks, reachability and
//! acyclicity, and the dependency graph of one level kept in a `daggy::Dag`.

use vstd::prelude::*;
use daggy::Dag;

verus! {

/// Step `i` of the walk `p` follows an edge of `e`.
pub open spec fn walk_step<N>(e: Set<(N, N)>, p: Seq<N>, i: int) -> bool {
    e.contains((p[i], p[i + 1]))
}

/// `p` is a walk of at least one node along edges of `e`.
pub open spec fn is_walk<N>(e: Set<(N, N)>, p: Seq<N>) -> bool {
    &&& p.len() >= 1
    &&& forall|i: int| 0 <= i < p.len() - 1 ==> #[trigger] walk_step(e, p, i)
}

/// Some walk along `e` leads from `x` to `y` (every node reaches itself).
pub open spec fn reaches<N>(e: Set<(N, N)>, x: N, y: N) -> bool {
    exists|p: Seq<N>| #[trigger] is_walk(e, p) && p[0] == x && p.last() == y
}

/// No edge of `e` closes a cycle: the target of an edge never reaches its source.
pub open spec fn is_acyclic<N>(e: Set<(N, N)>) -> bool {
    forall|x: N, y: N| #[trigger] e.contains((x, y)) ==> !reaches(e, y, x)
}

/// Every node reaches itself.
pub proof fn lemma_reaches_refl<N>(e: Set<(N, N)>, x: N)
    ensures
        reaches(e, x, x),
{
    let p = seq![x];
    assert(is_walk(e, p));
}

/// An edge is a walk.
pub proof fn lemma_reaches_edge<N>(e: Set<(N, N)>, x: N, y: N)
    requires
        e.contains((x, y)),
    ensures
        reaches(e, x, y),
{
    let p = seq![x, y];
    assert(walk_step(e, p, 0));
    assert(is_walk(e, p));
}

/// Walks compose.
pub proof fn lemma_reaches_trans<N>(e: Set<(N, N)>, x: N, y: N, z: N)
    requires
        reaches(e, x, y),
        reaches(e, y, z),
    ensures
        reaches(e, x, z),
{
    let p = choose|p: Seq<N>| #[trigger] is_walk(e, p) && p[0] == x && p.last() == y;
    let q = choose|q: Seq<N>| #[trigger] is_walk(e, q) && q[0] == y && q.last() == z;
    let r = p + q.drop_first();
    assert forall|i: int| 0 <= i < r.len() - 1 implies #[trigger] walk_step(e, r, i) by {
        if i < p.len() - 1 {
            assert(walk_step(e, p, i));
        } else if i == p.len() - 1 {
            assert(walk_step(e, q, 0));
        } else {
            assert(walk_step(e, q, i - p.len() + 1));
        }
    }
    assert(is_walk(e, r));
    if q.len() == 1 {
        assert(r.last() == p.last());
    } else {
        assert(r.last() == q.last());
    }
}

/// A walk stays a walk when edges are added.
pub proof fn lemma_walk_mono<N>(e: Set<(N, N)>, f: Set<(N, N)>, p: Seq<N>)
    requires
        e.subset_of(f),
        is_walk(e, p),
    ensures
        is_walk(f, p),
{
    assert forall|i: int| 0 <= i < p.len() - 1 implies #[trigger] walk_step(f, p, i) by {
        assert(walk_step(e, p, i));
    }
}

/// Reachability survives adding edges.
pub proof fn lemma_reaches_mono<N>(e: Set<(N, N)>, f: Set<(N, N)>, x: N, y: N)
    requires
        e.subset_of(f),
        reaches(e, x, y),
    ensures
        reaches(f, x, y),
{
    let p = choose|p: Seq<N>| #[trigger] is_walk(e, p) && p[0] == x && p.last() == y;
    lemma_walk_mono(e, f, p);
}

/// A walk of `e` with one more edge `a -> b` either is a walk of `e` or
/// passes through that edge.
pub proof fn lemma_walk_with_edge<N>(e: Set<(N, N)>, a: N, b: N, p: Seq<N>)
    requires
        is_walk(e.insert((a, b)), p),
    ensures
        reaches(e, p[0], p.last()) || (reaches(e, p[0], a) && reaches(e, b, p.last())),
    decreases p.len(),
{
    let f = e.insert((a, b));
    if p.len() == 1 {
        lemma_reaches_refl(e, p[0]);
    } else {
        let q = p.drop_last();
        assert forall|i: int| 0 <= i < q.len() - 1 implies #[trigger] walk_step(f, q, i) by {
            assert(walk_step(f, p, i));
        }
        lemma_walk_with_edge(e, a, b, q);
        let u = p[p.len() - 2];
        let v = p.last();
        assert(walk_step(f, p, p.len() - 2));
        assert(q.last() == u);
        if e.contains((u, v)) {
            lemma_reaches_edge(e, u, v);
            if reaches(e, p[0], u) {
                lemma_reaches_trans(e, p[0], u, v);
            } else {
                lemma_reaches_trans(e, b, u, v);
            }
        } else {
            assert(u == a && v == b);
            lemma_reaches_refl(e, b);
            if reaches(e, p[0], u) {
            } else {
            }
        }
    }
}

/// Adding an edge `a -> b` to an acyclic graph in which `b` does not reach
/// `a` keeps it acyclic.
pub proof fn lemma_acyclic_insert<N>(e: Set<(N, N)>, a: N, b: N)
    requires
        is_acyclic(e),
        !reaches(e, b, a),
    ensures
        is_acyclic(e.insert((a, b))),
{
    let f = e.insert((a, b));
    assert forall|x: N, y: N| #[trigger] f.contains((x, y)) implies !reaches(f, y, x) by {
        if reaches(f, y, x) {
            let p = choose|p: Seq<N>| #[trigger] is_walk(f, p) && p[0] == y && p.last() == x;
            lemma_walk_with_edge(e, a, b, p);
            if x == a && y == b {
                if reaches(e, b, a) {
                } else {
                    assert(reaches(e, b, a));
                }
            } else {
                assert(e.contains((x, y)));
                if reaches(e, y, x) {
                } else {
                    // b reaches x, x -> y, y reaches a: so b reaches a
                    lemma_reaches_edge(e, x, y);
                    lemma_reaches_trans(e, b, x, y);
                    lemma_reaches_trans(e, b, y, a);
                }
            }
        }
    }
}

/// Adding an edge `a -> b` where `b` already reaches `a` closes a cycle.
pub proof fn lemma_cyclic_insert<N>(e: Set<(N, N)>, a: N, b: N)
    requires
        reaches(e, b, a),
    ensures
        !is_acyclic(e.insert((a, b))),
{
    let f = e.insert((a, b));
    lemma_reaches_mono(e, f, b, a);
    assert(f.contains((a, b)));
}

/// A subgraph of an acyclic graph is acyclic.
pub proof fn lemma_acyclic_subset<N>(e: Set<(N, N)>, f: Set<(N, N)>)
    requires
        e.subset_of(f),
        is_acyclic(f),
    ensures
        is_acyclic(e),
{
    assert forall|x: N, y: N| #[trigger] e.contains((x, y)) implies !reaches(e, y, x) by {
        if reaches(e, y, x) {
            lemma_reaches_mono(e, f, y, x);
            assert(f.contains((x, y)));
        }
    }
}

/// A map that carries every edge of `e` to an edge of `f` carries walks to walks.
pub proof fn lemma_walk_map<A, B>(e: Set<(A, A)>, f: Set<(B, B)>, m: spec_fn(A) -> B, p: Seq<A>)
    requires
        forall|x: A, y: A| #[trigger] e.contains((x, y)) ==> f.contains((m(x), m(y))),
        is_walk(e, p),
    ensures
        is_walk(f, p.map_values(m)),
{
    let q = p.map_values(m);
    assert forall|i: int| 0 <= i < q.len() - 1 implies #[trigger] walk_step(f, q, i) by {
        assert(walk_step(e, p, i));
    }
}

/// Reachability carried by an edge-preserving map.
pub proof fn lemma_reaches_map<A, B>(e: Set<(A, A)>, f: Set<(B, B)>, m: spec_fn(A) -> B, x: A, y: A)
    requires
        forall|x: A, y: A| #[trigger] e.contains((x, y)) ==> f.contains((m(x), m(y))),
        reaches(e, x, y),
    ensures
        reaches(f, m(x), m(y)),
{
    let p = choose|p: Seq<A>| #[trigger] is_walk(e, p) && p[0] == x && p.last() == y;
    lemma_walk_map(e, f, m, p);
    let q = p.map_values(m);
    assert(q[0] == m(x));
    assert(q.last() == m(y));
}


/// The edges of a graph given by the successor set of each node `0..n`.
pub open spec fn succ_edges(succ: Seq<Set<int>>) -> Set<(int, int)> {
    Set::new(|e: (int, int)| 0 <= e.0 < succ.len() && succ[e.0].contains(e.1))
}

/// `order` lists every node `0..succ.len()` once, each before its successors.
pub open spec fn is_topological_order(succ: Seq<Set<int>>, order: Seq<usize>) -> bool {
    &&& order.len() == succ.len()
    &&& forall|i: int| 0 <= i < order.len() ==> #[trigger] order[i] < succ.len()
    &&& forall|m: int| 0 <= m < succ.len() ==> #[trigger] order.contains(m as usize)
    &&& forall|i: int, j: int| 0 <= i < order.len() && 0 <= j < order.len() && i != j
        ==> order[i] != order[j]
    &&& forall|i: int, j: int|
        0 <= i < order.len() && 0 <= j < order.len() && #[trigger] succ[order[i] as int].contains(
            order[j] as int,
        ) ==> i < j
}

/// A dependency graph held in a `daggy::Dag` with unit weights and `usize`
/// indices (so that no count of nodes or edges reaches the index limit).
#[verifier::external_body]
pub struct LevelGraph {
    dag: Dag<(), (), usize>,
}

/// What a `LevelGraph` holds: for each node `0..n`, in order of creation, the
/// set of its successors.
pub uninterp spec fn dag_successors(d: LevelGraph) -> Seq<Set<int>>;

/// `daggy::Dag::new`: a graph with no nodes.
#[verifier::external_body]
pub(crate) fn dag_new() -> (d: LevelGraph)
    ensures
        dag_successors(d) == Seq::<Set<int>>::empty(),
{
    LevelGraph { dag: Dag::new() }
}

/// `daggy::Dag::add_node`: a new node, numbered after the existing ones, with
/// no edges.
#[verifier::external_body]
pub(crate) fn dag_add_node(d: &mut LevelGraph) -> (i: usize)
    ensures
        i == dag_successors(*old(d)).len(),
        dag_successors(*final(d)) == dag_successors(*old(d)).push(Set::<int>::empty()),
{
    d.dag.add_node(()).index()
}

/// `daggy::Dag::find_edge(a, b).is_some()`: whether the edge `a -> b` exists.
#[verifier::external_body]
pub(crate) fn dag_has_edge(d: &LevelGraph, a: usize, b: usize) -> (res: bool)
    ensures
        res == (a < dag_successors(*d).len() && dag_successors(*d)[a as int].contains(b as int)),
{
    d.dag.find_edge(daggy::NodeIndex::new(a), daggy::NodeIndex::new(b)).is_some()
}

/// `daggy::Dag::add_edge(a, b, ())` on an acyclic graph: refused, leaving the
/// graph as it was, exactly when `b` already reaches `a` (so also when
/// `a == b`); otherwise the edge `a -> b` is added.
#[verifier::external_body]
pub(crate) fn dag_add_edge(d: &mut LevelGraph, a: usize, b: usize) -> (res: Result<(), ()>)
    requires
        a < dag_successors(*old(d)).len(),
        b < dag_successors(*old(d)).len(),
        is_acyclic(succ_edges(dag_successors(*old(d)))),
    ensures
        res is Err <==> reaches(succ_edges(dag_successors(*old(d))), b as int, a as int),
        res is Err ==> dag_successors(*final(d)) == dag_successors(*old(d)),
        res is Ok ==> dag_successors(*final(d)) == dag_successors(*old(d)).update(
            a as int,
            dag_successors(*old(d))[a as int].insert(b as int),
        ),
{
    match d.dag.add_edge(daggy::NodeIndex::new(a), daggy::NodeIndex::new(b), ()) {
        Ok(_) => Ok(()),
        Err(_) => Err(()),
    }
}

/// `petgraph::algo::toposort` on the graph: succeeds exactly when the graph is
/// acyclic, and then lists every node once, each before its successors.
#[verifier::external_body]
pub(crate) fn dag_toposort(d: &LevelGraph) -> (res: Result<Vec<usize>, ()>)
    ensures
        res is Ok <==> is_acyclic(succ_edges(dag_successors(*d))),
        res matches Ok(order) ==> is_topological_order(dag_successors(*d), order@),
{
    match daggy::petgraph::algo::toposort(d.dag.graph(), None) {
        Ok(order) => Ok(order.into_iter().map(|n| n.index()).collect()),
        Err(_) => Err(()),
    }
}

} // verus!
