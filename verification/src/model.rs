//! Mathematical model of the computation graph.
//!
//! A graph is a sequence of [`NodeView`] records, indexed by node id. The
//! predicates here say when such a sequence is well formed, what argument
//! sequence a node's transformation receives, and how staleness and cycles
//! are described. The executable engine in [`crate::graph`] states all of
//! its contracts over this model.

use vstd::prelude::*;

verus! {

/// Ghost state of one graph node: its downstream consumers (`up`), its
/// upstream dependencies (`down`, in argument order), the transformation it
/// applies, the memoized output (`cache`), the externally supplied input,
/// and whether the node is currently under evaluation (`busy`).
pub ghost struct NodeView<F> {
    pub up: Seq<int>,
    pub down: Seq<int>,
    pub func: F,
    pub cache: Option<Seq<u64>>,
    pub input: Option<Seq<u64>>,
    pub busy: bool,
}

/// `i` names a node of `g`.
pub open spec fn valid_id<F>(g: Seq<NodeView<F>>, i: int) -> bool {
    0 <= i < g.len()
}

/// Every edge endpoint names a node of the graph.
pub open spec fn edges_ok<F>(g: Seq<NodeView<F>>) -> bool {
    &&& forall|i: int, j: int|
        valid_id(g, i) && #[trigger] g[i].down.contains(j) ==> valid_id(g, j)
    &&& forall|i: int, j: int|
        valid_id(g, i) && #[trigger] g[i].up.contains(j) ==> valid_id(g, j)
}

/// Dependency and consumer edges record each other: whenever `j` is an
/// upstream dependency of `i`, node `j` lists `i` as a consumer, and the
/// other way round.
pub open spec fn symmetric<F>(g: Seq<NodeView<F>>) -> bool {
    &&& forall|i: int, j: int|
        valid_id(g, i) && #[trigger] g[i].down.contains(j) ==> g[j].up.contains(i)
    &&& forall|i: int, j: int|
        valid_id(g, i) && #[trigger] g[i].up.contains(j) ==> g[j].down.contains(i)
}

/// An optional value vector, read as the empty sequence when absent.
pub open spec fn opt_or_empty(o: Option<Seq<u64>>) -> Seq<u64> {
    match o {
        Some(s) => s,
        None => Seq::empty(),
    }
}

/// The cached outputs of the nodes listed in `deps`, flattened in order.
pub open spec fn dep_outputs<F>(g: Seq<NodeView<F>>, deps: Seq<int>) -> Seq<u64>
    decreases deps.len(),
{
    if deps.len() == 0 {
        Seq::empty()
    } else {
        dep_outputs(g, deps.drop_last()) + opt_or_empty(g[deps.last()].cache)
    }
}

/// The argument sequence handed to node `i`'s transformation: the outputs of
/// its dependencies in edge order, followed by its own external input (or
/// nothing, when no input is set).
pub open spec fn args_of<F>(g: Seq<NodeView<F>>, i: int) -> Seq<u64> {
    dep_outputs(g, g[i].down) + opt_or_empty(g[i].input)
}

/// `out` is a possible result of the transformation `f` on `args`.
pub open spec fn applies<F: Fn(Vec<u64>) -> Vec<u64>>(f: F, args: Seq<u64>, out: Seq<u64>) -> bool {
    exists|v: Vec<u64>, r: Vec<u64>|
        v@ == args && r@ == out && #[trigger] call_ensures(f, (v,), r)
}

/// `f` may be called on every argument vector.
pub open spec fn total_func<F: Fn(Vec<u64>) -> Vec<u64>>(f: F) -> bool {
    forall|v: Vec<u64>| #[trigger] call_requires(f, (v,))
}

/// Every dependency of node `i` holds a cache.
pub open spec fn deps_cached<F>(g: Seq<NodeView<F>>, i: int) -> bool {
    forall|j: int| #[trigger] g[i].down.contains(j) ==> g[j].cache is Some
}

/// A memoized output is meaningful: when node `i` holds a cache and all of
/// its dependencies hold one, the cache is a possible output of the node's
/// transformation on the arguments built from those caches.
pub open spec fn coherent_at<F: Fn(Vec<u64>) -> Vec<u64>>(g: Seq<NodeView<F>>, i: int) -> bool {
    g[i].cache is Some && deps_cached(g, i) ==> applies(
        g[i].func,
        args_of(g, i),
        g[i].cache.unwrap(),
    )
}

/// No cached node has a stale dependency. Together with [`coherent_at`] this
/// makes every cache meaningful; it is suspended while invalidation is part
/// way through a graph and restored when the walk finishes.
pub open spec fn no_orphans<F>(g: Seq<NodeView<F>>) -> bool {
    forall|i: int| valid_id(g, i) && (#[trigger] g[i].cache) is Some ==> deps_cached(g, i)
}

/// The part of well-formedness that survives clearing caches one by one:
/// edges stay in range and are recorded symmetrically, caches of fully fed
/// nodes are coherent, every transformation is callable on any arguments,
/// and a node under evaluation never holds a cache.
pub open spec fn almost_wf<F: Fn(Vec<u64>) -> Vec<u64>>(g: Seq<NodeView<F>>) -> bool {
    &&& edges_ok(g)
    &&& symmetric(g)
    &&& forall|i: int| valid_id(g, i) ==> #[trigger] coherent_at(g, i)
    &&& forall|i: int| valid_id(g, i) && #[trigger] g[i].busy ==> g[i].cache is None
    &&& forall|i: int| valid_id(g, i) ==> #[trigger] total_func(g[i].func)
}

/// Well-formedness of the whole graph at rest points.
pub open spec fn wf<F: Fn(Vec<u64>) -> Vec<u64>>(g: Seq<NodeView<F>>) -> bool {
    almost_wf(g) && no_orphans(g)
}

/// No node is under evaluation. This holds whenever the engine is at rest.
pub open spec fn quiet<F>(g: Seq<NodeView<F>>) -> bool {
    forall|i: int| valid_id(g, i) ==> !(#[trigger] g[i].busy)
}

/// `p` walks the graph along dependency (`down`) edges.
pub open spec fn is_down_path<F>(g: Seq<NodeView<F>>, p: Seq<int>) -> bool {
    &&& p.len() >= 1
    &&& forall|k: int| 0 <= k < p.len() ==> valid_id(g, #[trigger] p[k])
    &&& forall|k: int| 0 <= k < p.len() - 1 ==> g[#[trigger] p[k]].down.contains(p[k + 1])
}

/// `p` walks the graph along consumer (`up`) edges.
pub open spec fn is_up_path<F>(g: Seq<NodeView<F>>, p: Seq<int>) -> bool {
    &&& p.len() >= 1
    &&& forall|k: int| 0 <= k < p.len() ==> valid_id(g, #[trigger] p[k])
    &&& forall|k: int| 0 <= k < p.len() - 1 ==> g[#[trigger] p[k]].up.contains(p[k + 1])
}

/// Every node on `p` is stale (holds no cache).
pub open spec fn all_stale<F>(g: Seq<NodeView<F>>, p: Seq<int>) -> bool {
    forall|k: int| 0 <= k < p.len() ==> g[#[trigger] p[k]].cache is None
}

/// Every node on `p` holds a cache.
pub open spec fn all_cached<F>(g: Seq<NodeView<F>>, p: Seq<int>) -> bool {
    forall|k: int| 0 <= k < p.len() ==> g[#[trigger] p[k]].cache is Some
}

/// Node `j` consumes node `i`'s output, possibly through intermediaries;
/// `i` itself counts (the one-node path).
pub open spec fn reaches_up<F>(g: Seq<NodeView<F>>, i: int, j: int) -> bool {
    exists|p: Seq<int>| #[trigger] is_up_path(g, p) && p.first() == i && p.last() == j
}

/// Witness shape for [`hits_cycle`]: a dependency walk from `i` through
/// stale nodes whose last node repeats an earlier one, i.e. a stale cycle
/// reachable from `i`.
pub open spec fn is_stale_lasso<F>(g: Seq<NodeView<F>>, p: Seq<int>, k: int, i: int) -> bool {
    &&& is_down_path(g, p)
    &&& all_stale(g, p)
    &&& p.first() == i
    &&& 0 <= k < p.len() - 1
    &&& p[k] == p.last()
}

/// Evaluation starting at `i` runs into a cycle: some cycle of stale nodes
/// is reachable from `i` through stale nodes.
pub open spec fn hits_cycle<F>(g: Seq<NodeView<F>>, i: int) -> bool {
    exists|p: Seq<int>, k: int| #[trigger] is_stale_lasso(g, p, k, i)
}

/// Witness shape for [`on_stale_cycle`]: a dependency cycle through `z`
/// all of whose nodes are stale.
pub open spec fn is_stale_cycle<F>(g: Seq<NodeView<F>>, c: Seq<int>, z: int) -> bool {
    &&& is_down_path(g, c)
    &&& all_stale(g, c)
    &&& c.len() >= 2
    &&& c.first() == z
    &&& c.last() == z
}

/// Node `z` lies on a dependency cycle of stale nodes.
pub open spec fn on_stale_cycle<F>(g: Seq<NodeView<F>>, z: int) -> bool {
    exists|c: Seq<int>| #[trigger] is_stale_cycle(g, c, z)
}

/// Witness shape for [`busy_escorted`]: a dependency walk from `b` to `t`
/// whose nodes, except possibly `t` itself, are all under evaluation.
pub open spec fn is_escort<F>(g: Seq<NodeView<F>>, p: Seq<int>, b: int, t: int) -> bool {
    &&& is_down_path(g, p)
    &&& p.first() == b
    &&& p.last() == t
    &&& forall|k: int| 0 <= k < p.len() - 1 ==> g[#[trigger] p[k]].busy
}

/// Every node under evaluation lies on a dependency chain leading to `t`:
/// the shape of the evaluation stack while the engine works on `t`.
pub open spec fn busy_escorted<F>(g: Seq<NodeView<F>>, t: int) -> bool {
    forall|b: int|
        valid_id(g, b) && (#[trigger] g[b].busy) ==> exists|p: Seq<int>| is_escort(g, p, b, t)
}

/// The two graphs have the same nodes, edges, transformations and inputs;
/// only caches and busy marks may differ.
pub open spec fn same_skeleton<F>(g1: Seq<NodeView<F>>, g2: Seq<NodeView<F>>) -> bool {
    &&& g1.len() == g2.len()
    &&& forall|i: int|
        0 <= i < g1.len() ==> {
            &&& (#[trigger] g2[i]).up == g1[i].up
            &&& g2[i].down == g1[i].down
            &&& g2[i].func == g1[i].func
            &&& g2[i].input == g1[i].input
        }
}

/// Caches only accumulate from `g1` to `g2`: a node that held a cache still
/// holds the same one.
pub open spec fn caches_grow<F>(g1: Seq<NodeView<F>>, g2: Seq<NodeView<F>>) -> bool {
    forall|i: int|
        0 <= i < g1.len() && (#[trigger] g1[i].cache) is Some ==> g2[i].cache == g1[i].cache
}

/// Busy marks agree between the two graphs.
pub open spec fn busy_same<F>(g1: Seq<NodeView<F>>, g2: Seq<NodeView<F>>) -> bool {
    forall|i: int| 0 <= i < g1.len() ==> (#[trigger] g2[i]).busy == g1[i].busy
}

/// Nodes under evaluation in `g1` kept their (absent) cache in `g2`.
pub open spec fn busy_caches_kept<F>(g1: Seq<NodeView<F>>, g2: Seq<NodeView<F>>) -> bool {
    forall|i: int|
        0 <= i < g1.len() && (#[trigger] g1[i].busy) ==> g2[i].cache == g1[i].cache
}

/// Number of nodes of `g` satisfying `pred`.
pub open spec fn count_matching<F>(g: Seq<NodeView<F>>, pred: spec_fn(NodeView<F>) -> bool) -> nat
    decreases g.len(),
{
    if g.len() == 0 {
        0
    } else {
        count_matching(g.drop_last(), pred) + (if pred(g.last()) {
            1nat
        } else {
            0nat
        })
    }
}

/// A node is free when it is neither cached nor under evaluation; evaluation
/// recursion consumes this count.
pub open spec fn free_node<F>(n: NodeView<F>) -> bool {
    n.cache is None && !n.busy
}

/// Number of free nodes.
pub open spec fn count_free<F>(g: Seq<NodeView<F>>) -> nat {
    count_matching(g, |n: NodeView<F>| free_node(n))
}

/// Number of cached nodes; invalidation recursion consumes this count.
pub open spec fn count_cached<F>(g: Seq<NodeView<F>>) -> nat {
    count_matching(g, |n: NodeView<F>| n.cache is Some)
}

/// Pointwise implication of `pred` bounds its count.
pub proof fn lemma_count_le<F>(
    g1: Seq<NodeView<F>>,
    g2: Seq<NodeView<F>>,
    pred: spec_fn(NodeView<F>) -> bool,
)
    requires
        g1.len() == g2.len(),
        forall|i: int| 0 <= i < g2.len() && pred(#[trigger] g2[i]) ==> pred(g1[i]),
    ensures
        count_matching(g2, pred) <= count_matching(g1, pred),
    decreases g1.len(),
{
    if g1.len() > 0 {
        lemma_count_le(g1.drop_last(), g2.drop_last(), pred);
    }
}

/// A node that satisfied `pred` and stopped satisfying it strictly lowers
/// the count, when no node gained `pred`.
pub proof fn lemma_count_lt<F>(
    g1: Seq<NodeView<F>>,
    g2: Seq<NodeView<F>>,
    pred: spec_fn(NodeView<F>) -> bool,
    i: int,
)
    requires
        g1.len() == g2.len(),
        forall|j: int| 0 <= j < g2.len() && pred(#[trigger] g2[j]) ==> pred(g1[j]),
        0 <= i < g1.len(),
        pred(g1[i]),
        !pred(g2[i]),
    ensures
        count_matching(g2, pred) < count_matching(g1, pred),
    decreases g1.len(),
{
    if i == g1.len() - 1 {
        lemma_count_le(g1.drop_last(), g2.drop_last(), pred);
    } else {
        lemma_count_lt(g1.drop_last(), g2.drop_last(), pred, i);
    }
}

/// From a cached node, every dependency walk stays within cached nodes.
pub proof fn lemma_cached_down_closed<F: Fn(Vec<u64>) -> Vec<u64>>(
    g: Seq<NodeView<F>>,
    p: Seq<int>,
)
    requires
        wf(g),
        is_down_path(g, p),
        g[p.first()].cache is Some,
    ensures
        forall|k: int| 0 <= k < p.len() ==> g[#[trigger] p[k]].cache is Some,
    decreases p.len(),
{
    if p.len() > 1 {
        assert(g[p.first()].down.contains(p[1]));
        assert(deps_cached(g, p.first()));
        let q = p.drop_first();
        assert(is_down_path(g, q)) by {
            assert forall|k: int| 0 <= k < q.len() implies valid_id(g, #[trigger] q[k]) by {
                assert(q[k] == p[k + 1]);
            }
            assert forall|k: int| 0 <= k < q.len() - 1 implies g[#[trigger] q[k]].down.contains(
                q[k + 1],
            ) by {
                assert(q[k] == p[k + 1] && q[k + 1] == p[k + 2]);
            }
        }
        lemma_cached_down_closed(g, q);
        assert forall|k: int| 0 <= k < p.len() implies g[#[trigger] p[k]].cache is Some by {
            if k > 0 {
                assert(p[k] == q[k - 1]);
            }
        }
    }
}

/// Appending a fresh node — no edges, no cache, no input, not busy, with a
/// callable transformation — keeps the graph well formed and at rest.
pub proof fn lemma_wf_push<F: Fn(Vec<u64>) -> Vec<u64>>(
    g: Seq<NodeView<F>>,
    g2: Seq<NodeView<F>>,
    nv: NodeView<F>,
)
    requires
        wf(g),
        quiet(g),
        g2 == g.push(nv),
        nv.up == Seq::<int>::empty(),
        nv.down == Seq::<int>::empty(),
        nv.cache is None,
        nv.busy == false,
        total_func(nv.func),
    ensures
        wf(g2),
        quiet(g2),
{
    let n = g.len() as int;
    assert(forall|i: int| 0 <= i < n ==> g2[i] == g[i]);
    assert(g2[n] == nv);
    assert forall|i: int, j: int|
        valid_id(g2, i) && #[trigger] g2[i].down.contains(j) implies valid_id(g2, j)
        && g2[j].up.contains(i) by {
        if i < n {
            assert(g[i].down.contains(j));
        }
    }
    assert forall|i: int, j: int|
        valid_id(g2, i) && #[trigger] g2[i].up.contains(j) implies valid_id(g2, j)
        && g2[j].down.contains(i) by {
        if i < n {
            assert(g[i].up.contains(j));
        }
    }
    assert forall|i: int| valid_id(g2, i) implies #[trigger] coherent_at(g2, i) by {
        if i < n {
            assert(coherent_at(g, i));
            if g2[i].cache is Some && deps_cached(g2, i) {
                assert forall|k: int| 0 <= k < g2[i].down.len() implies g2[#[trigger] g2[i].down[k]].cache
                    == g[g[i].down[k]].cache by {
                    assert(g[i].down.contains(g[i].down[k]));
                    assert(valid_id(g, g[i].down[k]));
                }
                lemma_dep_outputs_same(g, g2, g[i].down);
                assert(args_of(g2, i) == args_of(g, i));
                assert forall|j: int| #[trigger] g[i].down.contains(j) implies g[j].cache
                    is Some by {
                    assert(g2[i].down.contains(j));
                    assert(valid_id(g, j));
                }
                assert(deps_cached(g, i));
            }
        }
    }
    assert forall|i: int|
        valid_id(g2, i) && (#[trigger] g2[i].cache) is Some implies deps_cached(g2, i) by {
        if i < n {
            assert(g[i].cache is Some);
            assert forall|j: int| #[trigger] g2[i].down.contains(j) implies g2[j].cache is Some by {
                assert(g[i].down.contains(j));
                assert(valid_id(g, j));
            }
        }
    }
}

/// Dependency outputs only depend on the caches of the listed nodes.
pub proof fn lemma_dep_outputs_same<F>(g1: Seq<NodeView<F>>, g2: Seq<NodeView<F>>, deps: Seq<int>)
    requires
        forall|k: int| 0 <= k < deps.len() ==> g2[#[trigger] deps[k]].cache == g1[deps[k]].cache,
    ensures
        dep_outputs(g2, deps) == dep_outputs(g1, deps),
    decreases deps.len(),
{
    if deps.len() > 0 {
        lemma_dep_outputs_same(g1, g2, deps.drop_last());
    }
}

/// Edge order is part of the contract, not incidental: when every
/// dependency of `deps` holds a one-value output, the flattened argument
/// block lists exactly those values, and position `m` is fed by the `m`-th
/// attached dependency — so swapping the order in which two dependencies
/// were attached swaps the argument positions their outputs occupy.
pub proof fn lemma_unit_outputs_positional<F>(g: Seq<NodeView<F>>, deps: Seq<int>)
    requires
        forall|m: int|
            0 <= m < deps.len() ==> g[#[trigger] deps[m]].cache is Some && g[deps[m]].cache.unwrap().len() == 1,
    ensures
        dep_outputs(g, deps).len() == deps.len(),
        forall|m: int|
            0 <= m < deps.len() ==> dep_outputs(g, deps)[m] == g[#[trigger] deps[m]].cache.unwrap()[0],
    decreases deps.len(),
{
    if deps.len() > 0 {
        let head = deps.drop_last();
        assert(forall|m: int| 0 <= m < head.len() ==> head[m] == deps[m]);
        lemma_unit_outputs_positional(g, head);
        assert(dep_outputs(g, deps) == dep_outputs(g, head) + opt_or_empty(
            g[deps.last()].cache,
        ));
        assert(opt_or_empty(g[deps.last()].cache) == g[deps.last()].cache.unwrap());
        assert forall|m: int| 0 <= m < deps.len() implies dep_outputs(g, deps)[m] == g[#[trigger] deps[m]].cache.unwrap()[0] by {
            if m < deps.len() - 1 {
                assert(dep_outputs(g, deps)[m] == dep_outputs(g, head)[m]);
                assert(head[m] == deps[m]);
            } else {
                assert(dep_outputs(g, deps)[m] == g[deps.last()].cache.unwrap()[0]);
            }
        }
    }
}

/// Pushing onto a sequence adds exactly one possible member.
pub proof fn lemma_push_contains(s: Seq<int>, x: int, y: int)
    ensures
        s.push(x).contains(y) <==> (s.contains(y) || y == x),
{
    if s.contains(y) {
        let k = choose|k: int| 0 <= k < s.len() && s[k] == y;
        assert(s.push(x)[k] == y);
    }
    if y == x {
        assert(s.push(x)[s.len() as int] == y);
    }
    if s.push(x).contains(y) {
        let k = choose|k: int| 0 <= k < s.push(x).len() && s.push(x)[k] == y;
        if k < s.len() {
            assert(s[k] == y);
        }
    }
}

/// Each node names itself as a consumer target: the one-node walk.
pub proof fn lemma_reach_up_self<F>(g: Seq<NodeView<F>>, i: int)
    requires
        valid_id(g, i),
    ensures
        reaches_up(g, i, i),
{
    let p = seq![i];
    assert(is_up_path(g, p));
}

/// Consumer reachability extends along one more consumer edge.
pub proof fn lemma_reach_up_extend<F>(g: Seq<NodeView<F>>, i: int, j: int, c: int)
    requires
        reaches_up(g, i, j),
        valid_id(g, c),
        g[j].up.contains(c),
    ensures
        reaches_up(g, i, c),
{
    let p = choose|p: Seq<int>| #[trigger] is_up_path(g, p) && p.first() == i && p.last() == j;
    let q = p.push(c);
    assert forall|k: int| 0 <= k < q.len() - 1 implies g[#[trigger] q[k]].up.contains(q[k + 1]) by {
        if k < p.len() - 1 {
            assert(q[k] == p[k] && q[k + 1] == p[k + 1]);
        } else {
            assert(q[k] == p.last() && q[k + 1] == c);
        }
    }
    assert(is_up_path(g, q) && q.first() == i && q.last() == c);
}

/// In a well-formed graph, a consumer walk that ends at a cached node runs
/// through cached nodes only: staleness always spreads upward completely.
pub proof fn lemma_cached_up_prefix<F: Fn(Vec<u64>) -> Vec<u64>>(g: Seq<NodeView<F>>, p: Seq<int>)
    requires
        wf(g),
        is_up_path(g, p),
        g[p.last()].cache is Some,
    ensures
        all_cached(g, p),
    decreases p.len(),
{
    if p.len() > 1 {
        let x = p.last();
        let y = p[p.len() - 2];
        assert(g[y].up.contains(x));
        assert(g[x].down.contains(y));
        assert(deps_cached(g, x));
        assert(g[y].cache is Some);
        let q = p.drop_last();
        assert(is_up_path(g, q)) by {
            assert(forall|k: int| 0 <= k < q.len() ==> q[k] == p[k]);
        }
        assert(q.last() == y);
        lemma_cached_up_prefix(g, q);
        assert forall|k: int| 0 <= k < p.len() implies g[#[trigger] p[k]].cache is Some by {
            if k < p.len() - 1 {
                assert(q[k] == p[k]);
            }
        }
    }
}

/// After one node's cache is cleared, a fully cached consumer walk to `x`
/// can be re-rooted: either it avoided `j` and stands as it is, or its tail
/// after the last visit to `j` starts at one of `j`'s direct consumers.
pub proof fn lemma_witness_after_clear<F>(
    g1: Seq<NodeView<F>>,
    g2: Seq<NodeView<F>>,
    p: Seq<int>,
    x: int,
    j: int,
)
    requires
        g1.len() == g2.len(),
        forall|m: int| 0 <= m < g1.len() ==> (#[trigger] g2[m]).up == g1[m].up,
        forall|m: int| 0 <= m < g1.len() && m != j ==> (#[trigger] g2[m]).cache == g1[m].cache,
        is_up_path(g1, p),
        all_cached(g1, p),
        p.last() == x,
        x != j,
    ensures
        exists|q: Seq<int>|
            (#[trigger] is_up_path(g2, q)) && all_cached(g2, q) && q.last() == x && (q.first()
                == p.first() || g1[j].up.contains(q.first())),
    decreases p.len(),
{
    if forall|k: int| 0 <= k < p.len() ==> p[k] != j {
        assert(is_up_path(g2, p)) by {
            assert forall|k: int| 0 <= k < p.len() - 1 implies g2[#[trigger] p[k]].up.contains(
                p[k + 1],
            ) by {
                assert(g1[p[k]].up.contains(p[k + 1]));
            }
        }
        assert(all_cached(g2, p)) by {
            assert forall|k: int| 0 <= k < p.len() implies g2[#[trigger] p[k]].cache is Some by {
                assert(p[k] != j);
            }
        }
    } else {
        let k0 = choose|k: int| 0 <= k < p.len() && p[k] == j;
        assert(k0 < p.len() - 1) by {
            assert(p[p.len() - 1] == x);
        }
        let rest = p.subrange(k0 + 1, p.len() as int);
        assert(forall|k: int| 0 <= k < rest.len() ==> rest[k] == p[k0 + 1 + k]);
        assert(is_up_path(g1, rest));
        assert(all_cached(g1, rest));
        assert(rest.last() == x);
        lemma_witness_after_clear(g1, g2, rest, x, j);
        let q = choose|q: Seq<int>|
            (#[trigger] is_up_path(g2, q)) && all_cached(g2, q) && q.last() == x && (q.first()
                == rest.first() || g1[j].up.contains(q.first()));
        assert(g1[p[k0]].up.contains(p[k0 + 1]));
        assert(rest.first() == p[k0 + 1]);
        assert(q.first() == rest.first() || g1[j].up.contains(q.first()));
        assert(g1[j].up.contains(q.first()));
    }
}

/// Clearing one node's cache keeps the graph almost well formed.
pub proof fn lemma_almost_wf_clear<F: Fn(Vec<u64>) -> Vec<u64>>(
    g1: Seq<NodeView<F>>,
    g2: Seq<NodeView<F>>,
    j: int,
)
    requires
        almost_wf(g1),
        valid_id(g1, j),
        g1.len() == g2.len(),
        forall|m: int| 0 <= m < g1.len() && m != j ==> g2[m] == g1[m],
        g2[j].up == g1[j].up,
        g2[j].down == g1[j].down,
        g2[j].func == g1[j].func,
        g2[j].input == g1[j].input,
        g2[j].busy == g1[j].busy,
        g2[j].cache is None,
    ensures
        almost_wf(g2),
    decreases g1.len(),
{
    assert forall|i: int, m: int|
        valid_id(g2, i) && #[trigger] g2[i].down.contains(m) implies valid_id(g2, m)
        && g2[m].up.contains(i) by {
        assert(g1[i].down.contains(m));
    }
    assert forall|i: int, m: int|
        valid_id(g2, i) && #[trigger] g2[i].up.contains(m) implies valid_id(g2, m)
        && g2[m].down.contains(i) by {
        assert(g1[i].up.contains(m));
    }
    assert forall|i: int| valid_id(g2, i) implies #[trigger] coherent_at(g2, i) by {
        if g2[i].cache is Some && deps_cached(g2, i) {
            assert(i != j);
            assert(g1[i].cache is Some);
            assert forall|m: int| #[trigger] g1[i].down.contains(m) implies g1[m].cache
                is Some by {
                assert(g2[i].down.contains(m));
                assert(g2[m].cache is Some);
                assert(m != j);
            }
            assert(deps_cached(g1, i));
            assert(coherent_at(g1, i));
            assert forall|k: int| 0 <= k < g2[i].down.len() implies g2[#[trigger] g2[i].down[k]].cache
                == g1[g1[i].down[k]].cache by {
                assert(g2[i].down.contains(g2[i].down[k]));
                assert(g2[g2[i].down[k]].cache is Some);
                assert(g2[i].down[k] != j);
            }
            lemma_dep_outputs_same(g1, g2, g1[i].down);
            assert(args_of(g2, i) == args_of(g1, i));
        }
    }
}

/// Once every consumer reachable from `i` is stale and nothing else changed,
/// full well-formedness is restored.
pub proof fn lemma_clear_restores_wf<F: Fn(Vec<u64>) -> Vec<u64>>(
    g1: Seq<NodeView<F>>,
    g2: Seq<NodeView<F>>,
    i: int,
)
    requires
        wf(g1),
        valid_id(g1, i),
        g1.len() == g2.len(),
        same_skeleton(g1, g2),
        busy_same(g1, g2),
        forall|j: int| valid_id(g1, j) && reaches_up(g1, i, j) ==> g2[j].cache is None,
        forall|j: int|
            valid_id(g1, j) && !reaches_up(g1, i, j) ==> (#[trigger] g2[j]).cache == g1[j].cache,
    ensures
        wf(g2),
{
    assert forall|m: int, d: int|
        valid_id(g2, m) && #[trigger] g2[m].down.contains(d) implies valid_id(g2, d)
        && g2[d].up.contains(m) by {
        assert(g1[m].down.contains(d));
    }
    assert forall|m: int, d: int|
        valid_id(g2, m) && #[trigger] g2[m].up.contains(d) implies valid_id(g2, d)
        && g2[d].down.contains(m) by {
        assert(g1[m].up.contains(d));
    }
    assert forall|m: int|
        valid_id(g2, m) && (#[trigger] g2[m].busy) implies g2[m].cache is None by {
        assert(g1[m].busy);
        assert(g1[m].cache is None);
        if !reaches_up(g1, i, m) {
            assert(g2[m].cache == g1[m].cache);
        }
    }
    assert forall|m: int|
        valid_id(g2, m) && (#[trigger] g2[m].cache) is Some implies deps_cached(g2, m)
        && g2[m].cache == g1[m].cache && coherent_at(g2, m) by {
        assert(!reaches_up(g1, i, m));
        assert(g2[m].cache == g1[m].cache);
        assert(g1[m].cache is Some);
        assert(deps_cached(g1, m));
        assert forall|d: int| #[trigger] g2[m].down.contains(d) implies g2[d].cache is Some
            && g2[d].cache == g1[d].cache by {
            assert(g1[m].down.contains(d));
            assert(valid_id(g1, d));
            assert(g1[d].cache is Some);
            assert(!reaches_up(g1, i, d)) by {
                if reaches_up(g1, i, d) {
                    assert(g1[d].up.contains(m));
                    lemma_reach_up_extend(g1, i, d, m);
                }
            }
        }
        assert forall|k: int| 0 <= k < g2[m].down.len() implies g2[#[trigger] g2[m].down[k]].cache
            == g1[g1[m].down[k]].cache by {
            assert(g2[m].down.contains(g2[m].down[k]));
        }
        lemma_dep_outputs_same(g1, g2, g1[m].down);
        assert(args_of(g2, m) == args_of(g1, m));
        assert(coherent_at(g1, m));
    }
    assert forall|m: int| valid_id(g2, m) implies #[trigger] coherent_at(g2, m) by {
        if g2[m].cache is Some && deps_cached(g2, m) {
        }
    }
    assert forall|m: int| valid_id(g2, m) implies #[trigger] total_func(g2[m].func) by {
        assert(g2[m].func == g1[m].func);
    }
}

/// `x` occurs among the ids in `s`.
pub open spec fn id_in(s: Seq<usize>, x: int) -> bool {
    exists|m: int| 0 <= m < s.len() && (#[trigger] s[m]) as int == x
}

/// The pending-work property of the invalidation walk: every node that is
/// still cached although a consumer walk from `start` reaches it can be
/// reached from some worklist entry along a fully cached consumer walk.
pub open spec fn clear_witnesses<F>(
    g0: Seq<NodeView<F>>,
    g: Seq<NodeView<F>>,
    stack: Seq<usize>,
    start: int,
) -> bool {
    forall|x: int|
        valid_id(g0, x) && (#[trigger] g[x]).cache is Some && reaches_up(g0, start, x)
            ==> exists|q: Seq<int>|
            (#[trigger] is_up_path(g, q)) && all_cached(g, q) && q.last() == x && id_in(
                stack,
                q.first(),
            )
}

/// Popping a stale worklist entry keeps the pending-work property: no fully
/// cached walk can start at a stale node.
pub proof fn lemma_witness_step_skip<F>(
    g0: Seq<NodeView<F>>,
    g: Seq<NodeView<F>>,
    stack_pre: Seq<usize>,
    start: int,
)
    requires
        stack_pre.len() >= 1,
        g[stack_pre.last() as int].cache is None,
        clear_witnesses(g0, g, stack_pre, start),
    ensures
        clear_witnesses(g0, g, stack_pre.drop_last(), start),
{
    let j = stack_pre.last() as int;
    let stack_cur = stack_pre.drop_last();
    assert forall|x: int|
        valid_id(g0, x) && (#[trigger] g[x]).cache is Some && reaches_up(g0, start, x) implies
    exists|q: Seq<int>|
        (#[trigger] is_up_path(g, q)) && all_cached(g, q) && q.last() == x && id_in(
            stack_cur,
            q.first(),
        ) by {
        let qp = choose|q: Seq<int>|
            (#[trigger] is_up_path(g, q)) && all_cached(g, q) && q.last() == x && id_in(
                stack_pre,
                q.first(),
            );
        assert(g[qp[0]].cache is Some);
        assert(qp.first() != j);
        let m = choose|m: int|
            0 <= m < stack_pre.len() && (#[trigger] stack_pre[m]) as int == qp.first();
        assert(m < stack_pre.len() - 1);
        assert(stack_cur[m] as int == qp.first());
        assert(id_in(stack_cur, qp.first()));
    }
}

/// Popping a cached worklist entry, clearing it, and pushing its direct
/// consumers keeps the pending-work property.
pub proof fn lemma_witness_step_clear<F>(
    g0: Seq<NodeView<F>>,
    pre: Seq<NodeView<F>>,
    cur: Seq<NodeView<F>>,
    stack_pre: Seq<usize>,
    stack_cur: Seq<usize>,
    ups: Seq<usize>,
    start: int,
)
    requires
        g0.len() == pre.len(),
        pre.len() == cur.len(),
        stack_pre.len() >= 1,
        ({
            let j = stack_pre.last() as int;
            &&& valid_id(pre, j)
            &&& forall|m: int| 0 <= m < pre.len() && m != j ==> #[trigger] cur[m] == pre[m]
            &&& cur[j].up == pre[j].up
            &&& cur[j].cache is None
            &&& ups.len() == pre[j].up.len()
            &&& forall|m: int| 0 <= m < ups.len() ==> (#[trigger] ups[m]) as int == pre[j].up[m]
        }),
        stack_cur == stack_pre.drop_last() + ups,
        clear_witnesses(g0, pre, stack_pre, start),
    ensures
        clear_witnesses(g0, cur, stack_cur, start),
{
    let j = stack_pre.last() as int;
    assert(forall|m: int| 0 <= m < pre.len() ==> (#[trigger] cur[m]).up == pre[m].up);
    assert forall|x: int|
        valid_id(g0, x) && (#[trigger] cur[x]).cache is Some && reaches_up(g0, start, x) implies
    exists|q: Seq<int>|
        (#[trigger] is_up_path(cur, q)) && all_cached(cur, q) && q.last() == x && id_in(
            stack_cur,
            q.first(),
        ) by {
        assert(x != j) by {
            assert(cur[j].cache is None);
        }
        assert(cur[x] == pre[x]);
        assert(pre[x].cache is Some);
        let qp = choose|q: Seq<int>|
            (#[trigger] is_up_path(pre, q)) && all_cached(pre, q) && q.last() == x && id_in(
                stack_pre,
                q.first(),
            );
        lemma_witness_after_clear(pre, cur, qp, x, j);
        let q2 = choose|q: Seq<int>|
            (#[trigger] is_up_path(cur, q)) && all_cached(cur, q) && q.last() == x && (q.first()
                == qp.first() || pre[j].up.contains(q.first()));
        if q2.first() == qp.first() {
            assert(cur[q2[0]].cache is Some);
            assert(q2.first() != j);
            let m = choose|m: int|
                0 <= m < stack_pre.len() && (#[trigger] stack_pre[m]) as int == qp.first();
            assert(m < stack_pre.len() - 1);
            assert(stack_cur[m] as int == q2.first());
            assert(id_in(stack_cur, q2.first()));
        } else {
            let c = q2.first();
            let idx = choose|k: int| 0 <= k < pre[j].up.len() && #[trigger] pre[j].up[k] == c;
            assert(ups[idx] as int == c);
            assert(stack_cur[stack_pre.len() - 1 + idx] as int == c);
            assert(id_in(stack_cur, c));
        }
    }
}

/// Toggling the evaluation mark of a stale node disturbs nothing else.
pub proof fn lemma_busy_toggle_wf<F: Fn(Vec<u64>) -> Vec<u64>>(
    g1: Seq<NodeView<F>>,
    g2: Seq<NodeView<F>>,
    i: int,
)
    requires
        almost_wf(g1),
        no_orphans(g1),
        valid_id(g1, i),
        g1.len() == g2.len(),
        forall|m: int| 0 <= m < g1.len() && m != i ==> #[trigger] g2[m] == g1[m],
        g2[i].up == g1[i].up,
        g2[i].down == g1[i].down,
        g2[i].func == g1[i].func,
        g2[i].input == g1[i].input,
        g2[i].cache == g1[i].cache,
        g2[i].cache is None,
    ensures
        almost_wf(g2),
        no_orphans(g2),
{
    assert forall|a: int, m: int|
        valid_id(g2, a) && #[trigger] g2[a].down.contains(m) implies valid_id(g2, m)
        && g2[m].up.contains(a) by {
        assert(g1[a].down.contains(m));
    }
    assert forall|a: int, m: int|
        valid_id(g2, a) && #[trigger] g2[a].up.contains(m) implies valid_id(g2, m)
        && g2[m].down.contains(a) by {
        assert(g1[a].up.contains(m));
    }
    assert(forall|m: int| 0 <= m < g1.len() ==> (#[trigger] g2[m]).cache == g1[m].cache);
    assert forall|a: int|
        valid_id(g2, a) && (#[trigger] g2[a].cache) is Some implies deps_cached(g2, a) by {
        assert(g1[a].cache is Some);
        assert forall|m: int| #[trigger] g2[a].down.contains(m) implies g2[m].cache is Some by {
            assert(g1[a].down.contains(m));
            assert(g1[m].cache is Some);
        }
    }
    assert forall|a: int| valid_id(g2, a) implies #[trigger] coherent_at(g2, a) by {
        if g2[a].cache is Some && deps_cached(g2, a) {
            assert(a != i);
            assert(g1[a].cache is Some);
            assert(deps_cached(g1, a));
            assert(coherent_at(g1, a));
            assert forall|k: int| 0 <= k < g1[a].down.len() implies g2[#[trigger] g1[a].down[k]].cache
                == g1[g1[a].down[k]].cache by {
                assert(g1[a].down.contains(g1[a].down[k]));
                assert(valid_id(g1, g1[a].down[k]));
            }
            lemma_dep_outputs_same(g1, g2, g1[a].down);
            assert(args_of(g2, a) == args_of(g1, a));
        }
    }
}

/// Filling the cache of a node whose dependencies are all cached, with a
/// possible output of its transformation, and releasing its evaluation
/// mark, keeps the graph well formed.
pub proof fn lemma_cache_fill_wf<F: Fn(Vec<u64>) -> Vec<u64>>(
    g1: Seq<NodeView<F>>,
    g2: Seq<NodeView<F>>,
    i: int,
    outv: Seq<u64>,
)
    requires
        almost_wf(g1),
        no_orphans(g1),
        valid_id(g1, i),
        g1[i].cache is None,
        deps_cached(g1, i),
        applies(g1[i].func, args_of(g1, i), outv),
        g1.len() == g2.len(),
        forall|m: int| 0 <= m < g1.len() && m != i ==> #[trigger] g2[m] == g1[m],
        g2[i].up == g1[i].up,
        g2[i].down == g1[i].down,
        g2[i].func == g1[i].func,
        g2[i].input == g1[i].input,
        g2[i].cache == Some(outv),
        !g2[i].busy,
    ensures
        almost_wf(g2),
        no_orphans(g2),
{
    assert forall|a: int, m: int|
        valid_id(g2, a) && #[trigger] g2[a].down.contains(m) implies valid_id(g2, m)
        && g2[m].up.contains(a) by {
        assert(g1[a].down.contains(m));
    }
    assert forall|a: int, m: int|
        valid_id(g2, a) && #[trigger] g2[a].up.contains(m) implies valid_id(g2, m)
        && g2[m].down.contains(a) by {
        assert(g1[a].up.contains(m));
    }
    assert forall|a: int|
        valid_id(g2, a) && (#[trigger] g2[a].cache) is Some implies deps_cached(g2, a) by {
        if a == i {
            assert forall|m: int| #[trigger] g2[i].down.contains(m) implies g2[m].cache is Some by {
                assert(g1[i].down.contains(m));
                assert(g1[m].cache is Some);
                assert(m != i);
            }
        } else {
            assert(g1[a].cache is Some);
            assert forall|m: int| #[trigger] g2[a].down.contains(m) implies g2[m].cache is Some by {
                assert(g1[a].down.contains(m));
                assert(g1[m].cache is Some);
                if m != i {
                    assert(g2[m] == g1[m]);
                }
            }
        }
    }
    assert forall|a: int| valid_id(g2, a) implies #[trigger] coherent_at(g2, a) by {
        if g2[a].cache is Some && deps_cached(g2, a) {
            if a == i {
                assert forall|k: int| 0 <= k < g1[i].down.len() implies g2[#[trigger] g1[i].down[k]].cache
                    == g1[g1[i].down[k]].cache by {
                    assert(g1[i].down.contains(g1[i].down[k]));
                    assert(valid_id(g1, g1[i].down[k]));
                    assert(g1[g1[i].down[k]].cache is Some);
                    assert(g1[i].down[k] != i);
                }
                lemma_dep_outputs_same(g1, g2, g1[i].down);
                assert(args_of(g2, i) == args_of(g1, i));
                assert(g2[i].cache.unwrap() == outv);
            } else {
                assert(g1[a].cache is Some);
                assert(deps_cached(g1, a));
                assert(coherent_at(g1, a));
                assert forall|k: int| 0 <= k < g1[a].down.len() implies g2[#[trigger] g1[a].down[k]].cache
                    == g1[g1[a].down[k]].cache by {
                    assert(g1[a].down.contains(g1[a].down[k]));
                    assert(valid_id(g1, g1[a].down[k]));
                    assert(g1[g1[a].down[k]].cache is Some);
                    assert(g1[a].down[k] != i);
                }
                lemma_dep_outputs_same(g1, g2, g1[a].down);
                assert(args_of(g2, a) == args_of(g1, a));
            }
        }
    }
    assert forall|a: int|
        valid_id(g2, a) && (#[trigger] g2[a].busy) implies g2[a].cache is None by {
        assert(a != i);
        assert(g1[a].busy);
    }
}

/// Marking `i` extends every evaluation-stack escort to reach the
/// dependency `d` that the engine is about to force.
pub proof fn lemma_escort_step<F>(
    g1: Seq<NodeView<F>>,
    g2: Seq<NodeView<F>>,
    i: int,
    d: int,
)
    requires
        g1.len() == g2.len(),
        valid_id(g1, i),
        valid_id(g1, d),
        !g1[i].busy,
        g2[i].busy,
        forall|m: int| 0 <= m < g1.len() && m != i ==> (#[trigger] g2[m]).busy == g1[m].busy,
        forall|m: int| 0 <= m < g1.len() ==> (#[trigger] g2[m]).down == g1[m].down,
        g2[i].down.contains(d),
        busy_escorted(g1, i),
    ensures
        busy_escorted(g2, d),
{
    assert forall|b: int|
        valid_id(g2, b) && (#[trigger] g2[b].busy) implies exists|p: Seq<int>|
        is_escort(g2, p, b, d) by {
        if b == i {
            let p = seq![i, d];
            assert(g2[p[0]].down.contains(p[1]));
            assert(is_down_path(g2, p));
            assert(is_escort(g2, p, b, d));
        } else {
            assert(g1[b].busy);
            let p = choose|p: Seq<int>| is_escort(g1, p, b, i);
            let q = p.push(d);
            assert forall|k: int| 0 <= k < q.len() - 1 implies g2[#[trigger] q[k]].down.contains(
                q[k + 1],
            ) by {
                if k < p.len() - 1 {
                    assert(q[k] == p[k] && q[k + 1] == p[k + 1]);
                    assert(g1[p[k]].down.contains(p[k + 1]));
                } else {
                    assert(q[k] == p.last() && q[k + 1] == d);
                    assert(p.last() == i);
                }
            }
            assert forall|k: int| 0 <= k < q.len() - 1 implies g2[#[trigger] q[k]].busy by {
                if k < p.len() - 1 {
                    assert(q[k] == p[k]);
                    assert(g1[p[k]].busy);
                    assert(p[k] != i ==> g2[p[k]].busy == g1[p[k]].busy);
                } else {
                    assert(q[k] == i);
                }
            }
            assert(is_down_path(g2, q));
            assert(is_escort(g2, q, b, d));
        }
    }
}

/// A stale self-loop is a cycle the evaluation engine runs into.
pub proof fn lemma_lasso_self<F>(g: Seq<NodeView<F>>, i: int)
    requires
        valid_id(g, i),
        g[i].cache is None,
        g[i].down.contains(i),
    ensures
        hits_cycle(g, i),
{
    let q = seq![i, i];
    assert(g[q[0]].down.contains(q[1]));
    assert(is_down_path(g, q));
    assert(is_stale_lasso(g, q, 0, i));
}

/// Forcing a dependency that is itself on the evaluation stack closes a
/// stale cycle through `i`: the stack escort from `d` back to `i` plus the
/// edge from `i` to `d`.
pub proof fn lemma_lasso_from_escort<F>(g: Seq<NodeView<F>>, i: int, d: int)
    requires
        valid_id(g, i),
        valid_id(g, d),
        g[i].cache is None,
        !g[i].busy,
        g[i].down.contains(d),
        g[d].busy,
        forall|m: int| valid_id(g, m) && (#[trigger] g[m].busy) ==> g[m].cache is None,
        busy_escorted(g, i),
    ensures
        hits_cycle(g, i),
{
    let p = choose|p: Seq<int>| is_escort(g, p, d, i);
    assert(is_escort(g, p, d, i));
    assert(d != i);
    assert(p.len() >= 2);
    let q = seq![i].add(p).push(d);
    assert(q.len() == p.len() + 2);
    assert(q[0] == i);
    assert(forall|k: int| 0 <= k < p.len() ==> q[k + 1] == p[k]);
    assert(q[q.len() - 1] == d);
    assert forall|k: int| 0 <= k < q.len() - 1 implies g[#[trigger] q[k]].down.contains(
        q[k + 1],
    ) by {
        if k == 0 {
            assert(q[0] == i && q[1] == p[0]);
            assert(p.first() == d);
        } else if k < q.len() - 2 {
            assert(q[k] == p[k - 1] && q[k + 1] == p[k]);
            assert(g[p[k - 1]].down.contains(p[k]));
        } else {
            assert(q[k] == p[p.len() - 1] && q[k + 1] == d);
            assert(p.last() == i);
        }
    }
    assert forall|k: int| 0 <= k < q.len() implies valid_id(g, #[trigger] q[k]) by {
        if 1 <= k < q.len() - 1 {
            assert(q[k] == p[k - 1]);
        }
    }
    assert(is_down_path(g, q));
    assert forall|k: int| 0 <= k < q.len() implies g[#[trigger] q[k]].cache is None by {
        if k == 0 {
        } else if k < q.len() - 1 {
            assert(q[k] == p[k - 1]);
            if k - 1 < p.len() - 1 {
                assert(g[p[k - 1]].busy);
            } else {
                assert(p[k - 1] == i);
            }
        } else {
            assert(q[k] == d);
            assert(g[d].busy);
        }
    }
    assert(all_stale(g, q));
    assert(q[1] == p[0] == d);
    assert(q.last() == d);
    assert(is_stale_lasso(g, q, 1, i));
}

/// A stale cycle reached from a dependency `d` is also reached from the
/// stale node `i` that was about to consume `d`, in any earlier state with
/// the same edges and no more caches.
pub proof fn lemma_lasso_lift<F>(g0: Seq<NodeView<F>>, gc: Seq<NodeView<F>>, i: int, d: int)
    requires
        g0.len() == gc.len(),
        forall|m: int| 0 <= m < g0.len() ==> (#[trigger] gc[m]).down == g0[m].down,
        caches_grow(g0, gc),
        valid_id(g0, i),
        g0[i].cache is None,
        g0[i].down.contains(d),
        hits_cycle(gc, d),
    ensures
        hits_cycle(g0, i),
{
    let (p, k) = choose|p: Seq<int>, k: int| #[trigger] is_stale_lasso(gc, p, k, d);
    let q = seq![i].add(p);
    assert(q.len() == p.len() + 1);
    assert(q[0] == i);
    assert(forall|m: int| 0 <= m < p.len() ==> q[m + 1] == p[m]);
    assert forall|m: int| 0 <= m < q.len() - 1 implies g0[#[trigger] q[m]].down.contains(
        q[m + 1],
    ) by {
        if m == 0 {
            assert(q[1] == p[0]);
            assert(p.first() == d);
        } else {
            assert(q[m] == p[m - 1] && q[m + 1] == p[m]);
            assert(gc[p[m - 1]].down.contains(p[m]));
        }
    }
    assert forall|m: int| 0 <= m < q.len() implies valid_id(g0, #[trigger] q[m]) by {
        if m >= 1 {
            assert(q[m] == p[m - 1]);
            assert(valid_id(gc, p[m - 1]));
        }
    }
    assert(is_down_path(g0, q));
    assert forall|m: int| 0 <= m < q.len() implies g0[#[trigger] q[m]].cache is None by {
        if m >= 1 {
            assert(q[m] == p[m - 1]);
            assert(gc[p[m - 1]].cache is None);
            if g0[p[m - 1]].cache is Some {
                assert(gc[p[m - 1]].cache == g0[p[m - 1]].cache);
            }
        }
    }
    assert(all_stale(g0, q));
    assert(q[k + 1] == p[k]);
    assert(q.last() == p.last());
    assert(is_stale_lasso(g0, q, k + 1, i));
}

/// Dependency walks only depend on the `down` edges.
pub proof fn lemma_down_path_transfer<F>(g1: Seq<NodeView<F>>, g2: Seq<NodeView<F>>, p: Seq<int>)
    requires
        g1.len() == g2.len(),
        forall|m: int| 0 <= m < g1.len() ==> (#[trigger] g2[m]).down == g1[m].down,
        is_down_path(g1, p),
    ensures
        is_down_path(g2, p),
{
    assert forall|k: int| 0 <= k < p.len() - 1 implies g2[#[trigger] p[k]].down.contains(
        p[k + 1],
    ) by {
        assert(g1[p[k]].down.contains(p[k + 1]));
    }
}

/// A node that already held a cache at `i` is on no stale lasso from `i`.
pub proof fn lemma_cached_no_lasso<F>(g: Seq<NodeView<F>>, i: int)
    requires
        g[i].cache is Some,
    ensures
        !hits_cycle(g, i),
{
    if hits_cycle(g, i) {
        let (p, k) = choose|p: Seq<int>, k: int| #[trigger] is_stale_lasso(g, p, k, i);
        assert(g[p[0]].cache is None);
    }
}

/// A stale cycle survives backwards in time: in an earlier well-formed
/// state with the same edges and no more caches, where `z` is still stale,
/// the same cycle is stale too.
pub proof fn lemma_stale_cycle_transfer<F: Fn(Vec<u64>) -> Vec<u64>>(
    g0: Seq<NodeView<F>>,
    g1: Seq<NodeView<F>>,
    z: int,
)
    requires
        wf(g1),
        g0.len() == g1.len(),
        forall|m: int| 0 <= m < g0.len() ==> (#[trigger] g1[m]).down == g0[m].down,
        g1[z].cache is None,
        on_stale_cycle(g0, z),
    ensures
        on_stale_cycle(g1, z),
{
    let c = choose|c: Seq<int>| #[trigger] is_stale_cycle(g0, c, z);
    lemma_down_path_transfer(g0, g1, c);
    assert forall|k: int| 0 <= k < c.len() implies g1[#[trigger] c[k]].cache is None by {
        if g1[c[k]].cache is Some {
            let tail = c.subrange(k, c.len() as int);
            assert(forall|m: int| 0 <= m < tail.len() ==> tail[m] == c[k + m]);
            assert(is_down_path(g1, tail));
            assert(tail.first() == c[k]);
            lemma_cached_down_closed(g1, tail);
            assert(g1[tail[tail.len() - 1]].cache is Some);
            assert(tail.last() == z);
        }
    }
    assert(is_stale_cycle(g1, c, z));
}

/// When every dependency of `i` holds a cache and `i` itself does not, no
/// stale dependency cycle (in a same-edged earlier state) runs through `i`:
/// the cycle would force a cached walk back into the stale `i`.
pub proof fn lemma_fill_no_cycle<F: Fn(Vec<u64>) -> Vec<u64>>(
    g0: Seq<NodeView<F>>,
    gl: Seq<NodeView<F>>,
    i: int,
)
    requires
        wf(gl),
        g0.len() == gl.len(),
        forall|m: int| 0 <= m < g0.len() ==> (#[trigger] gl[m]).down == g0[m].down,
        valid_id(gl, i),
        gl[i].cache is None,
        deps_cached(gl, i),
    ensures
        !on_stale_cycle(g0, i),
{
    if on_stale_cycle(g0, i) {
        let c = choose|c: Seq<int>| #[trigger] is_stale_cycle(g0, c, i);
        lemma_down_path_transfer(g0, gl, c);
        assert(g0[c[0]].down.contains(c[1]));
        assert(gl[i].down.contains(c[1]));
        assert(gl[c[1]].cache is Some);
        let tail = c.subrange(1, c.len() as int);
        assert(forall|m: int| 0 <= m < tail.len() ==> tail[m] == c[1 + m]);
        assert(is_down_path(gl, tail));
        assert(tail.first() == c[1]);
        lemma_cached_down_closed(gl, tail);
        assert(gl[tail[tail.len() - 1]].cache is Some);
        assert(tail.last() == i);
    }
}

/// Once `i` has been filled and every node the engine freshly cached is on
/// no stale cycle of the starting state, no stale lasso can have left `i`
/// in that starting state.
pub proof fn lemma_ok_refutes_lasso<F: Fn(Vec<u64>) -> Vec<u64>>(
    g0: Seq<NodeView<F>>,
    gf: Seq<NodeView<F>>,
    i: int,
)
    requires
        wf(gf),
        g0.len() == gf.len(),
        forall|m: int| 0 <= m < g0.len() ==> (#[trigger] gf[m]).down == g0[m].down,
        valid_id(g0, i),
        gf[i].cache is Some,
        forall|z: int|
            valid_id(g0, z) && g0[z].cache is None && (#[trigger] gf[z]).cache is Some
                ==> !on_stale_cycle(g0, z),
    ensures
        !hits_cycle(g0, i),
{
    if hits_cycle(g0, i) {
        let (p, k) = choose|p: Seq<int>, kk: int| #[trigger] is_stale_lasso(g0, p, kk, i);
        let z = p[k];
        lemma_down_path_transfer(g0, gf, p);
        lemma_cached_down_closed(gf, p);
        assert(gf[z].cache is Some);
        assert(g0[z].cache is None);
        let c = p.subrange(k, p.len() as int);
        assert(forall|m: int| 0 <= m < c.len() ==> c[m] == p[k + m]);
        assert(is_down_path(g0, c));
        assert(all_stale(g0, c));
        assert(c.first() == z);
        assert(c.last() == p.last());
        assert(is_stale_cycle(g0, c, z));
        assert(!on_stale_cycle(g0, z));
    }
}

/// Replacing the external input of a stale node keeps the graph well
/// formed: no cache anywhere refers to that input any more.
pub proof fn lemma_input_change_wf<F: Fn(Vec<u64>) -> Vec<u64>>(
    g1: Seq<NodeView<F>>,
    g2: Seq<NodeView<F>>,
    id: int,
)
    requires
        wf(g1),
        valid_id(g1, id),
        g1[id].cache is None,
        g1.len() == g2.len(),
        forall|m: int| 0 <= m < g1.len() && m != id ==> g2[m] == g1[m],
        g2[id].up == g1[id].up,
        g2[id].down == g1[id].down,
        g2[id].func == g1[id].func,
        g2[id].cache == g1[id].cache,
        g2[id].busy == g1[id].busy,
    ensures
        wf(g2),
{
    assert forall|i: int, m: int|
        valid_id(g2, i) && #[trigger] g2[i].down.contains(m) implies valid_id(g2, m)
        && g2[m].up.contains(i) by {
        assert(g1[i].down.contains(m));
    }
    assert forall|i: int, m: int|
        valid_id(g2, i) && #[trigger] g2[i].up.contains(m) implies valid_id(g2, m)
        && g2[m].down.contains(i) by {
        assert(g1[i].up.contains(m));
    }
    assert(forall|m: int| 0 <= m < g1.len() ==> (#[trigger] g2[m]).cache == g1[m].cache);
    assert forall|i: int|
        valid_id(g2, i) && (#[trigger] g2[i].cache) is Some implies deps_cached(g2, i) by {
        assert(g1[i].cache is Some);
        assert forall|m: int| #[trigger] g2[i].down.contains(m) implies g2[m].cache is Some by {
            assert(g1[i].down.contains(m));
            assert(g1[m].cache is Some);
        }
    }
    assert forall|i: int| valid_id(g2, i) implies #[trigger] coherent_at(g2, i) by {
        if g2[i].cache is Some && deps_cached(g2, i) {
            assert(i != id);
            assert(g1[i].cache is Some);
            assert(deps_cached(g1, i));
            assert(coherent_at(g1, i));
            assert forall|k: int| 0 <= k < g1[i].down.len() implies g2[#[trigger] g1[i].down[k]].cache
                == g1[g1[i].down[k]].cache by {
                assert(g1[i].down.contains(g1[i].down[k]));
                assert(valid_id(g1, g1[i].down[k]));
            }
            lemma_dep_outputs_same(g1, g2, g1[i].down);
            assert(args_of(g2, i) == args_of(g1, i));
        }
    }
}

/// Adding a dependency edge from a stale consumer `c` to `d` keeps the
/// graph well formed: the new edge feeds no cache yet.
pub proof fn lemma_add_edge_wf<F: Fn(Vec<u64>) -> Vec<u64>>(
    g1: Seq<NodeView<F>>,
    g2: Seq<NodeView<F>>,
    c: int,
    d: int,
)
    requires
        wf(g1),
        valid_id(g1, c),
        valid_id(g1, d),
        g1[c].cache is None,
        g1.len() == g2.len(),
        forall|m: int|
            0 <= m < g1.len() ==> (#[trigger] g2[m]).cache == g1[m].cache && g2[m].input
                == g1[m].input && g2[m].func == g1[m].func && g2[m].busy == g1[m].busy,
        g2[c].down == g1[c].down.push(d),
        g2[d].up == g1[d].up.push(c),
        forall|m: int| 0 <= m < g1.len() && m != c ==> (#[trigger] g2[m]).down == g1[m].down,
        forall|m: int| 0 <= m < g1.len() && m != d ==> (#[trigger] g2[m]).up == g1[m].up,
    ensures
        wf(g2),
{
    assert forall|i: int, m: int|
        valid_id(g2, i) && #[trigger] g2[i].down.contains(m) implies valid_id(g2, m)
        && g2[m].up.contains(i) by {
        if i == c {
            lemma_push_contains(g1[c].down, d, m);
            if m == d {
                lemma_push_contains(g1[d].up, c, c);
            } else {
                assert(g1[c].down.contains(m));
                assert(g1[m].up.contains(c));
                if m == d {
                } else {
                    assert(g2[m].up == g1[m].up);
                }
            }
            if m != d && g1[c].down.contains(m) {
                assert(g2[m].up == g1[m].up);
            }
        } else {
            assert(g1[i].down.contains(m));
            assert(g1[m].up.contains(i));
            if m == d {
                lemma_push_contains(g1[d].up, c, i);
            }
        }
    }
    assert forall|i: int, m: int|
        valid_id(g2, i) && #[trigger] g2[i].up.contains(m) implies valid_id(g2, m)
        && g2[m].down.contains(i) by {
        if i == d {
            lemma_push_contains(g1[d].up, c, m);
            if m == c {
                lemma_push_contains(g1[c].down, d, d);
            } else {
                assert(g1[d].up.contains(m));
                assert(g1[m].down.contains(d));
            }
        } else {
            assert(g1[i].up.contains(m));
            assert(g1[m].down.contains(i));
            if m == c {
                lemma_push_contains(g1[c].down, d, i);
            }
        }
    }
    assert forall|i: int|
        valid_id(g2, i) && (#[trigger] g2[i].cache) is Some implies deps_cached(g2, i) by {
        assert(g1[i].cache is Some);
        assert(i != c);
        assert(g2[i].down == g1[i].down);
        assert forall|m: int| #[trigger] g2[i].down.contains(m) implies g2[m].cache is Some by {
            assert(g1[i].down.contains(m));
            assert(g1[m].cache is Some);
        }
    }
    assert forall|i: int| valid_id(g2, i) implies #[trigger] coherent_at(g2, i) by {
        if g2[i].cache is Some && deps_cached(g2, i) {
            assert(i != c);
            assert(g2[i].down == g1[i].down);
            assert(g1[i].cache is Some);
            assert(deps_cached(g1, i));
            assert(coherent_at(g1, i));
            assert forall|k: int| 0 <= k < g1[i].down.len() implies g2[#[trigger] g1[i].down[k]].cache
                == g1[g1[i].down[k]].cache by {
                assert(g1[i].down.contains(g1[i].down[k]));
                assert(valid_id(g1, g1[i].down[k]));
            }
            lemma_dep_outputs_same(g1, g2, g1[i].down);
            assert(args_of(g2, i) == args_of(g1, i));
        }
    }
}

} // verus!
