//! The executable computation graph: an arena of nodes, handle types, the
//! memoized evaluation engine and the cache-invalidation propagator.

use vstd::prelude::*;

use crate::model::{
    NodeView, all_cached, almost_wf, applies, args_of, busy_caches_kept, busy_escorted, busy_same,
    caches_grow, clear_witnesses, count_cached, count_free, dep_outputs, deps_cached, free_node,
    hits_cycle, id_in, is_escort, is_up_path, lemma_add_edge_wf, lemma_almost_wf_clear,
    lemma_busy_toggle_wf, lemma_cache_fill_wf, lemma_cached_no_lasso, lemma_cached_up_prefix,
    lemma_clear_restores_wf, lemma_count_le, lemma_count_lt, lemma_dep_outputs_same,
    lemma_escort_step, lemma_fill_no_cycle, lemma_input_change_wf, lemma_lasso_from_escort,
    lemma_lasso_lift, lemma_lasso_self, lemma_ok_refutes_lasso, lemma_reach_up_extend,
    lemma_reach_up_self, lemma_stale_cycle_transfer, lemma_wf_push, lemma_witness_step_clear,
    lemma_witness_step_skip, no_orphans, on_stale_cycle, opt_or_empty, quiet, reaches_up,
    same_skeleton, total_func, valid_id, wf,
};

verus! {

/// Storage of one node inside the arena.
struct NodeRec<F> {
    /// Ids of the nodes that consume this node's output, in insertion order.
    up: Vec<usize>,
    /// Ids of the nodes whose outputs feed this node, in argument order.
    down: Vec<usize>,
    /// The pure transformation applied to this node's argument sequence.
    func: F,
    /// Memoized output; `None` means stale.
    cache: Option<Vec<u64>>,
    /// Externally supplied input values, appended after dependency outputs.
    input: Option<Vec<u64>>,
    /// Set while the evaluation engine works on this node.
    busy: bool,
}

impl<F> View for NodeRec<F> {
    type V = NodeView<F>;

    closed spec fn view(&self) -> NodeView<F> {
        NodeView {
            up: Seq::new(self.up@.len(), |k: int| self.up@[k] as int),
            down: Seq::new(self.down@.len(), |k: int| self.down@[k] as int),
            func: self.func,
            cache: match self.cache {
                Some(v) => Some(v@),
                None => None,
            },
            input: match self.input {
                Some(v) => Some(v@),
                None => None,
            },
            busy: self.busy,
        }
    }
}

/// An arena of computation nodes. All graph state lives here; [`Node`] and
/// [`Input`] are small handles into it.
pub struct Graph<F> {
    nodes: Vec<NodeRec<F>>,
}

impl<F> View for Graph<F> {
    type V = Seq<NodeView<F>>;

    closed spec fn view(&self) -> Seq<NodeView<F>> {
        Seq::new(self.nodes@.len(), |i: int| self.nodes@[i]@)
    }
}

impl<F: Fn(Vec<u64>) -> Vec<u64>> Graph<F> {
    /// The graph is well formed and at rest. Every public operation
    /// requires and preserves this.
    pub open spec fn inv(&self) -> bool {
        wf(self@) && quiet(self@)
    }

    /// Creates an empty graph.
    pub fn new() -> (g: Graph<F>)
        ensures
            g.inv(),
            g@.len() == 0,
    {
        Graph { nodes: Vec::new() }
    }
}

/// Handle to one node of a [`Graph`]. Its view is the node's id.
#[derive(Clone, Copy)]
pub struct Node {
    id: usize,
}

impl View for Node {
    type V = int;

    closed spec fn view(&self) -> int {
        self.id as int
    }
}

/// Handle bound to one node, for setting, inspecting, or partially editing
/// that node's external input vector. Its view is the node's id.
#[derive(Clone, Copy)]
pub struct Input {
    id: usize,
}

impl View for Input {
    type V = int;

    closed spec fn view(&self) -> int {
        self.id as int
    }
}

impl Node {
    /// Adds a fresh node to the graph: no edges, no cache, no input. The
    /// transformation must accept any argument vector.
    pub fn new<F: Fn(Vec<u64>) -> Vec<u64>>(g: &mut Graph<F>, func: F) -> (n: Node)
        requires
            old(g).inv(),
            total_func(func),
        ensures
            final(g).inv(),
            final(g)@.len() == old(g)@.len() + 1,
            n@ == old(g)@.len(),
            forall|i: int| 0 <= i < old(g)@.len() ==> final(g)@[i] == old(g)@[i],
            final(g)@[n@].up == Seq::<int>::empty(),
            final(g)@[n@].down == Seq::<int>::empty(),
            final(g)@[n@].func == func,
            final(g)@[n@].cache is None,
            final(g)@[n@].input is None,
    {
        let id = g.nodes.len();
        g.nodes.push(
            NodeRec {
                up: Vec::new(),
                down: Vec::new(),
                func,
                cache: None,
                input: None,
                busy: false,
            },
        );
        proof {
            let gv = g@;
            let old_gv = old(g)@;
            assert(gv.len() == old_gv.len() + 1);
            assert(forall|i: int| 0 <= i < old_gv.len() ==> gv[i] == old_gv[i]);
            assert(gv[id as int].up =~= Seq::<int>::empty());
            assert(gv[id as int].down =~= Seq::<int>::empty());
            assert(gv =~= old_gv.push(gv[id as int]));
            lemma_wf_push(old_gv, gv, gv[id as int]);
        }
        Node { id }
    }

    /// Returns this node's up-to-date output: the node's transformation
    /// applied to the concatenation of each upstream dependency's output in
    /// edge order (each obtained by the same rule, recursively) followed by
    /// the node's own external input. A valid memoized output is returned
    /// as it is, without re-running any transformation; otherwise caches
    /// are filled bottom-up and the result is memoized. When evaluation
    /// runs back into a node it is already forcing — the dependency graph
    /// is cyclic below this node — the call fails with
    /// [`ComputeError::Cycle`]; caches filled along the successful part of
    /// the walk remain valid.
    pub fn compute<F: Fn(Vec<u64>) -> Vec<u64> + Copy>(&self, g: &mut Graph<F>) -> (r: Result<
        Vec<u64>,
        ComputeError,
    >)
        requires
            old(g).inv(),
            0 <= self@ < old(g)@.len(),
        ensures
            final(g).inv(),
            final(g)@.len() == old(g)@.len(),
            same_skeleton(old(g)@, final(g)@),
            caches_grow(old(g)@, final(g)@),
            old(g)@[self@].cache is Some ==> final(g)@ == old(g)@ && r is Ok,
            r is Ok ==> final(g)@[self@].cache is Some
                && r.unwrap()@ == final(g)@[self@].cache.unwrap(),
            r is Ok <==> !hits_cycle(old(g)@, self@),
    {
        proof {
            assert forall|b: int|
                valid_id(g@, b) && (#[trigger] g@[b].busy) implies exists|p: Seq<int>|
                is_escort(g@, p, b, self@) by {
                assert(!g@[b].busy);
            }
        }
        let res = g.force(self.id);
        proof {
            assert forall|m: int| valid_id(g@, m) implies !(#[trigger] g@[m]).busy by {
                assert(g@[m].busy == old(g)@[m].busy);
            }
        }
        match res {
            Ok(()) => {
                let out = match &g.nodes[self.id].cache {
                    Some(v) => copy_words(v),
                    None => {
                        proof {
                            assert(false);
                        }
                        Vec::new()
                    },
                };
                Ok(out)
            },
            Err(e) => Err(e),
        }
    }

    /// Produces an input handle sharing this node's storage. Handles may be
    /// created freely; all of them address the same node state.
    pub fn input(&self) -> (r: Input)
        ensures
            r@ == self@,
    {
        Input { id: self.id }
    }

    /// Wires `child` as an upstream dependency of this node: appends
    /// `child` to this node's `down` edges (defining the next argument
    /// position) and, symmetrically, this node to `child`'s `up` edges,
    /// then invalidates this node and its consumers. Self-loops, duplicate
    /// edges and cycles are not rejected here; a cycle surfaces later as a
    /// [`compute`](Node::compute) failure.
    pub fn add_children<F: Fn(Vec<u64>) -> Vec<u64>>(&self, g: &mut Graph<F>, child: &Node)
        requires
            old(g).inv(),
            0 <= self@ < old(g)@.len(),
            0 <= child@ < old(g)@.len(),
        ensures
            final(g).inv(),
            final(g)@.len() == old(g)@.len(),
            final(g)@[self@].down == old(g)@[self@].down.push(child@),
            final(g)@[child@].up == old(g)@[child@].up.push(self@),
            forall|j: int|
                0 <= j < old(g)@.len() && j != self@
                    ==> (#[trigger] final(g)@[j]).down == old(g)@[j].down,
            forall|j: int|
                0 <= j < old(g)@.len() && j != child@
                    ==> (#[trigger] final(g)@[j]).up == old(g)@[j].up,
            forall|j: int|
                0 <= j < old(g)@.len() ==> (#[trigger] final(g)@[j]).input == old(g)@[j].input
                    && final(g)@[j].func == old(g)@[j].func,
            final(g)@[self@].cache is None,
            forall|j: int|
                valid_id(old(g)@, j) && reaches_up(old(g)@, self@, j) ==> final(g)@[j].cache
                    is None,
            forall|j: int|
                valid_id(old(g)@, j) && !reaches_up(old(g)@, self@, j) ==> final(g)@[j].cache
                    == old(g)@[j].cache,
    {
        let ghost g0 = g@;
        g.clear_cache(self.id);
        let ghost g1 = g@;
        g.nodes[self.id].down.push(child.id);
        let ghost g2 = g@;
        proof {
            assert(forall|m: int| 0 <= m < g1.len() && m != self@ ==> #[trigger] g2[m] == g1[m]);
            assert(g2[self@].down =~= g1[self@].down.push(child@));
            assert(g2[self@].up == g1[self@].up);
            assert(g2[self@].func == g1[self@].func);
            assert(g2[self@].input == g1[self@].input);
            assert(g2[self@].cache == g1[self@].cache);
            assert(g2[self@].busy == g1[self@].busy);
        }
        g.nodes[child.id].up.push(self.id);
        proof {
            let c = self@;
            let d = child@;
            let gf = g@;
            assert(forall|m: int| 0 <= m < g2.len() && m != d ==> #[trigger] gf[m] == g2[m]);
            assert(gf[d].up =~= g2[d].up.push(c));
            assert(gf[d].down == g2[d].down);
            assert(gf[d].func == g2[d].func);
            assert(gf[d].input == g2[d].input);
            assert(gf[d].cache == g2[d].cache);
            assert(gf[d].busy == g2[d].busy);
            assert(g1[c].cache is None) by {
                lemma_reach_up_self(g0, c);
            }
            assert(gf[c].down == g1[c].down.push(d));
            assert(gf[d].up == g1[d].up.push(c));
            lemma_add_edge_wf(g1, gf, c, d);
        }
    }
}

impl Input {
    /// Returns a copy of the node's current external input, or `None` when
    /// no input is set. No side effects.
    pub fn get<F: Fn(Vec<u64>) -> Vec<u64>>(&self, g: &Graph<F>) -> (r: Option<Vec<u64>>)
        requires
            0 <= self@ < g@.len(),
        ensures
            r is Some <==> g@[self@].input is Some,
            r is Some ==> r.unwrap()@ == g@[self@].input.unwrap(),
    {
        match &g.nodes[self.id].input {
            Some(v) => Some(copy_words(v)),
            None => None,
        }
    }

    /// Replaces the node's external input wholesale with `values` (possibly
    /// empty), then unconditionally invalidates the node and, transitively,
    /// every consumer of its output — even when the new value equals the
    /// old one.
    pub fn set<F: Fn(Vec<u64>) -> Vec<u64>>(&self, g: &mut Graph<F>, values: Vec<u64>)
        requires
            old(g).inv(),
            0 <= self@ < old(g)@.len(),
        ensures
            final(g).inv(),
            final(g)@.len() == old(g)@.len(),
            final(g)@[self@].input == Some(values@),
            final(g)@[self@].cache is None,
            forall|j: int|
                0 <= j < old(g)@.len() && j != self@
                    ==> (#[trigger] final(g)@[j]).input == old(g)@[j].input,
            forall|j: int|
                0 <= j < old(g)@.len() ==> (#[trigger] final(g)@[j]).up == old(g)@[j].up
                    && final(g)@[j].down == old(g)@[j].down
                    && final(g)@[j].func == old(g)@[j].func,
            forall|j: int|
                valid_id(old(g)@, j) && reaches_up(old(g)@, self@, j) ==> final(g)@[j].cache
                    is None,
            forall|j: int|
                valid_id(old(g)@, j) && !reaches_up(old(g)@, self@, j) ==> final(g)@[j].cache
                    == old(g)@[j].cache,
    {
        let ghost g0 = g@;
        g.clear_cache(self.id);
        let ghost g1 = g@;
        g.nodes[self.id].input = Some(values);
        proof {
            let id = self@;
            assert(forall|m: int| 0 <= m < g1.len() && m != id ==> #[trigger] g@[m] == g1[m]);
            assert(g@[id].up == g1[id].up);
            assert(g@[id].down == g1[id].down);
            assert(g@[id].func == g1[id].func);
            assert(g@[id].cache == g1[id].cache);
            assert(g@[id].busy == g1[id].busy);
            assert(g1[id].cache is None) by {
                lemma_reach_up_self(g0, id);
            }
            lemma_input_change_wf(g1, g@, id);
        }
    }

    /// Inserts `value` at `index` of the node's existing external input,
    /// shifting later values, then invalidates the node and its consumers.
    /// When no input is set this is not applicable: it returns `None` and
    /// leaves the whole graph untouched.
    pub fn insert<F: Fn(Vec<u64>) -> Vec<u64>>(
        &self,
        g: &mut Graph<F>,
        index: usize,
        value: u64,
    ) -> (r: Option<()>)
        requires
            old(g).inv(),
            0 <= self@ < old(g)@.len(),
            old(g)@[self@].input is Some ==> index <= old(g)@[self@].input.unwrap().len(),
        ensures
            final(g).inv(),
            r is Some <==> old(g)@[self@].input is Some,
            old(g)@[self@].input is None ==> final(g)@ == old(g)@,
            final(g)@.len() == old(g)@.len(),
            old(g)@[self@].input is Some ==> {
                &&& final(g)@[self@].input == Some(
                    old(g)@[self@].input.unwrap().insert(index as int, value),
                )
                &&& final(g)@[self@].cache is None
                &&& forall|j: int|
                    0 <= j < old(g)@.len() && j != self@
                        ==> (#[trigger] final(g)@[j]).input == old(g)@[j].input
                &&& forall|j: int|
                    0 <= j < old(g)@.len() ==> (#[trigger] final(g)@[j]).up == old(g)@[j].up
                        && final(g)@[j].down == old(g)@[j].down
                        && final(g)@[j].func == old(g)@[j].func
                &&& forall|j: int|
                    valid_id(old(g)@, j) && reaches_up(old(g)@, self@, j) ==> final(g)@[j].cache
                        is None
                &&& forall|j: int|
                    valid_id(old(g)@, j) && !reaches_up(old(g)@, self@, j) ==> final(g)@[j].cache
                        == old(g)@[j].cache
            },
    {
        let ghost g0 = g@;
        let mut widened: Vec<u64> = match &g.nodes[self.id].input {
            Some(v) => copy_words(v),
            None => {
                return None;
            },
        };
        widened.insert(index, value);
        g.clear_cache(self.id);
        let ghost g1 = g@;
        g.nodes[self.id].input = Some(widened);
        proof {
            let id = self@;
            assert(forall|m: int| 0 <= m < g1.len() && m != id ==> #[trigger] g@[m] == g1[m]);
            assert(g@[id].up == g1[id].up);
            assert(g@[id].down == g1[id].down);
            assert(g@[id].func == g1[id].func);
            assert(g@[id].cache == g1[id].cache);
            assert(g@[id].busy == g1[id].busy);
            assert(g1[id].cache is None) by {
                lemma_reach_up_self(g0, id);
            }
            lemma_input_change_wf(g1, g@, id);
        }
        Some(())
    }
}

impl<F: Fn(Vec<u64>) -> Vec<u64>> Graph<F> {
    /// Invalidation propagator: discards `start`'s memoized output and,
    /// transitively, that of every consumer reachable over `up` edges. A
    /// worklist with a staleness check makes the walk terminate even on a
    /// cyclic graph, clearing each node at most once.
    #[verifier::rlimit(100)]
    fn clear_cache(&mut self, start: usize)
        requires
            wf(old(self)@),
            start < old(self)@.len(),
        ensures
            wf(final(self)@),
            final(self)@.len() == old(self)@.len(),
            same_skeleton(old(self)@, final(self)@),
            busy_same(old(self)@, final(self)@),
            forall|j: int|
                valid_id(old(self)@, j) && reaches_up(old(self)@, start as int, j)
                    ==> final(self)@[j].cache is None,
            forall|j: int|
                valid_id(old(self)@, j) && !reaches_up(old(self)@, start as int, j)
                    ==> final(self)@[j].cache == old(self)@[j].cache,
    {
        let ghost g0 = self@;
        let mut stack: Vec<usize> = Vec::new();
        stack.push(start);
        proof {
            lemma_reach_up_self(g0, start as int);
            assert forall|x: int|
                valid_id(g0, x) && (#[trigger] self@[x]).cache is Some && reaches_up(
                    g0,
                    start as int,
                    x,
                ) implies exists|q: Seq<int>|
                (#[trigger] is_up_path(self@, q)) && all_cached(self@, q) && q.last() == x && id_in(
                    stack@,
                    q.first(),
                ) by {
                let p = choose|p: Seq<int>|
                    #[trigger] is_up_path(g0, p) && p.first() == start as int && p.last() == x;
                lemma_cached_up_prefix(g0, p);
                assert(stack@[0] as int == p.first());
                assert(id_in(stack@, p.first()));
                assert(is_up_path(self@, p) && all_cached(self@, p));
            }
            assert(clear_witnesses(g0, self@, stack@, start as int));
        }
        while stack.len() > 0
            invariant
                wf(g0),
                start < g0.len(),
                self@.len() == g0.len(),
                almost_wf(self@),
                same_skeleton(g0, self@),
                busy_same(g0, self@),
                forall|m: int| 0 <= m < stack@.len() ==> (#[trigger] stack@[m]) < g0.len(),
                forall|m: int|
                    0 <= m < stack@.len() ==> reaches_up(
                        g0,
                        start as int,
                        (#[trigger] stack@[m]) as int,
                    ),
                forall|j: int|
                    valid_id(g0, j) && (#[trigger] self@[j]).cache != g0[j].cache ==> reaches_up(
                        g0,
                        start as int,
                        j,
                    ) && self@[j].cache is None,
                clear_witnesses(g0, self@, stack@, start as int),
            decreases count_cached(self@), stack@.len(),
        {
            let ghost pre = self@;
            let ghost stack_pre = stack@;
            let j = stack.pop().unwrap();
            proof {
                assert(j == stack_pre.last());
                assert(stack@ == stack_pre.drop_last());
            }
            if self.nodes[j].cache.is_some() {
                self.nodes[j].cache = None;
                proof {
                    assert(self@.len() == pre.len());
                    assert(forall|m: int|
                        0 <= m < pre.len() && m != j as int ==> #[trigger] self@[m] == pre[m]);
                    assert(self@[j as int].up == pre[j as int].up);
                    assert(self@[j as int].down == pre[j as int].down);
                    assert(self@[j as int].func == pre[j as int].func);
                    assert(self@[j as int].input == pre[j as int].input);
                    assert(self@[j as int].busy == pre[j as int].busy);
                    assert(self@[j as int].cache is None);
                    lemma_almost_wf_clear(pre, self@, j as int);
                    lemma_count_lt(pre, self@, |n: NodeView<F>| n.cache is Some, j as int);
                }
                let mut ups = copy_ids(&self.nodes[j].up);
                let ghost ups_v = ups@;
                proof {
                    assert(forall|m: int|
                        0 <= m < ups_v.len() ==> (#[trigger] ups_v[m]) as int == self@[
                            j as int].up[m]);
                }
                stack.append(&mut ups);
                proof {
                    assert(stack@ == stack_pre.drop_last() + ups_v);
                    assert(reaches_up(g0, start as int, j as int));
                    assert forall|m: int| 0 <= m < ups_v.len() implies (#[trigger] ups_v[m])
                        < g0.len() && reaches_up(g0, start as int, ups_v[m] as int) by {
                        assert(g0[j as int].up == self@[j as int].up);
                        assert(self@[j as int].up[m] == ups_v[m] as int);
                        assert(g0[j as int].up.contains(ups_v[m] as int));
                        assert(valid_id(g0, ups_v[m] as int));
                        lemma_reach_up_extend(g0, start as int, j as int, ups_v[m] as int);
                    }
                    lemma_witness_step_clear(
                        g0,
                        pre,
                        self@,
                        stack_pre,
                        stack@,
                        ups_v,
                        start as int,
                    );
                }
            } else {
                proof {
                    assert(self@ == pre);
                    lemma_witness_step_skip(g0, self@, stack_pre, start as int);
                }
            }
        }
        proof {
            assert forall|x: int|
                valid_id(g0, x) && reaches_up(g0, start as int, x) implies self@[x].cache
                is None by {
                if self@[x].cache is Some {
                    let q = choose|q: Seq<int>|
                        (#[trigger] is_up_path(self@, q)) && all_cached(self@, q) && q.last() == x
                            && id_in(stack@, q.first());
                    assert(false);
                }
            }
            lemma_clear_restores_wf(g0, self@, start as int);
        }
    }
}

/// The one failure the evaluation engine reports: forcing a node ran back
/// into a node already under evaluation, which means the dependency graph
/// is cyclic at the compute root.
#[derive(Clone, Copy, Debug, PartialEq, Eq)]
pub enum ComputeError {
    Cycle,
}

impl<F: Fn(Vec<u64>) -> Vec<u64> + Copy> Graph<F> {
    /// Memoized depth-first evaluation of node `i`: returns at once when a
    /// cache is present; otherwise marks the node as under evaluation,
    /// forces each dependency in edge order, applies the transformation to
    /// the concatenated outputs followed by the node's own input, and
    /// stores the result. Running into a node already marked reports a
    /// cycle.
    #[verifier::rlimit(100)]
    fn force(&mut self, i: usize) -> (r: Result<(), ComputeError>)
        requires
            wf(old(self)@),
            i < old(self)@.len(),
            !old(self)@[i as int].busy,
            busy_escorted(old(self)@, i as int),
        ensures
            wf(final(self)@),
            final(self)@.len() == old(self)@.len(),
            same_skeleton(old(self)@, final(self)@),
            busy_same(old(self)@, final(self)@),
            caches_grow(old(self)@, final(self)@),
            busy_caches_kept(old(self)@, final(self)@),
            old(self)@[i as int].cache is Some ==> final(self)@ == old(self)@ && r is Ok,
            r is Ok ==> final(self)@[i as int].cache is Some,
            r is Err ==> hits_cycle(old(self)@, i as int),
            r is Ok ==> forall|z: int|
                valid_id(old(self)@, z) && old(self)@[z].cache is None
                    && (#[trigger] final(self)@[z]).cache is Some ==> !on_stale_cycle(
                    old(self)@,
                    z,
                ),
            r is Ok ==> !hits_cycle(old(self)@, i as int),
        decreases count_free(self@),
    {
        let ghost g0 = self@;
        if self.nodes[i].cache.is_some() {
            proof {
                lemma_cached_no_lasso(g0, i as int);
            }
            return Ok(());
        }
        self.nodes[i].busy = true;
        proof {
            assert(forall|m: int| 0 <= m < g0.len() && m != i as int ==> #[trigger] self@[m] == g0[m]);
            assert(self@[i as int].up == g0[i as int].up);
            assert(self@[i as int].down == g0[i as int].down);
            assert(self@[i as int].func == g0[i as int].func);
            assert(self@[i as int].input == g0[i as int].input);
            assert(self@[i as int].cache == g0[i as int].cache);
            lemma_busy_toggle_wf(g0, self@, i as int);
            lemma_count_lt(g0, self@, |n: NodeView<F>| free_node(n), i as int);
        }
        let num = self.nodes[i].down.len();
        let mut args: Vec<u64> = Vec::new();
        let mut k: usize = 0;
        while k < num
            invariant
                g0 == old(self)@,
                wf(g0),
                i < g0.len(),
                !g0[i as int].busy,
                g0[i as int].cache is None,
                busy_escorted(g0, i as int),
                num == g0[i as int].down.len(),
                0 <= k <= num,
                self@.len() == g0.len(),
                almost_wf(self@),
                no_orphans(self@),
                same_skeleton(g0, self@),
                forall|m: int|
                    0 <= m < g0.len() && m != i as int ==> (#[trigger] self@[m]).busy == g0[m].busy,
                self@[i as int].busy,
                self@[i as int].cache is None,
                caches_grow(g0, self@),
                busy_caches_kept(g0, self@),
                count_free(self@) < count_free(g0),
                forall|m: int|
                    0 <= m < k ==> self@[#[trigger] g0[i as int].down[m]].cache is Some,
                args@ == dep_outputs(self@, g0[i as int].down.take(k as int)),
                forall|z: int|
                    valid_id(g0, z) && g0[z].cache is None && (#[trigger] self@[z]).cache is Some
                        ==> !on_stale_cycle(g0, z),
            decreases num - k,
        {
            let ghost pre = self@;
            let dep = self.nodes[i].down[k];
            proof {
                assert(self@[i as int].down == g0[i as int].down);
                assert(dep as int == g0[i as int].down[k as int]);
                assert(g0[i as int].down.contains(dep as int));
                assert(valid_id(g0, dep as int));
            }
            if self.nodes[dep].busy {
                self.nodes[i].busy = false;
                proof {
                    assert(pre[dep as int].busy);
                    if dep == i {
                        lemma_lasso_self(g0, i as int);
                    } else {
                        assert(g0[dep as int].busy);
                        assert(g0[dep as int].cache is None);
                        lemma_lasso_from_escort(g0, i as int, dep as int);
                    }
                    assert(forall|m: int|
                        0 <= m < pre.len() && m != i as int ==> #[trigger] self@[m] == pre[m]);
                    assert(self@[i as int].up == pre[i as int].up);
                    assert(self@[i as int].down == pre[i as int].down);
                    assert(self@[i as int].func == pre[i as int].func);
                    assert(self@[i as int].input == pre[i as int].input);
                    assert(self@[i as int].cache == pre[i as int].cache);
                    lemma_busy_toggle_wf(pre, self@, i as int);
                }
                return Err(ComputeError::Cycle);
            }
            if self.nodes[dep].cache.is_none() {
                proof {
                    lemma_escort_step(g0, self@, i as int, dep as int);
                }
                let res = self.force(dep);
                proof {
                    assert(same_skeleton(pre, self@));
                    assert(caches_grow(pre, self@));
                    lemma_count_le(pre, self@, |n: NodeView<F>| free_node(n));
                    if res is Ok {
                        assert forall|z: int|
                            valid_id(g0, z) && g0[z].cache is None && (#[trigger] self@[z]).cache
                                is Some implies !on_stale_cycle(g0, z) by {
                            if pre[z].cache is Some {
                            } else {
                                assert(!on_stale_cycle(pre, z));
                                if on_stale_cycle(g0, z) {
                                    lemma_stale_cycle_transfer(g0, pre, z);
                                }
                            }
                        }
                    }
                }
                match res {
                    Err(e) => {
                        let ghost pre2 = self@;
                        self.nodes[i].busy = false;
                        proof {
                            lemma_lasso_lift(g0, pre, i as int, dep as int);
                            assert(forall|m: int|
                                0 <= m < pre2.len() && m != i as int ==> #[trigger] self@[m]
                                    == pre2[m]);
                            assert(self@[i as int].up == pre2[i as int].up);
                            assert(self@[i as int].down == pre2[i as int].down);
                            assert(self@[i as int].func == pre2[i as int].func);
                            assert(self@[i as int].input == pre2[i as int].input);
                            assert(self@[i as int].cache == pre2[i as int].cache);
                            lemma_busy_toggle_wf(pre2, self@, i as int);
                        }
                        return Err(e);
                    },
                    Ok(()) => {},
                }
            }
            let mut dep_out: Vec<u64> = match &self.nodes[dep].cache {
                Some(v) => copy_words(v),
                None => {
                    proof {
                        assert(false);
                    }
                    Vec::new()
                },
            };
            let ghost dep_out_v = dep_out@;
            proof {
                assert(self@[dep as int].cache is Some);
                assert(caches_grow(pre, self@));
                assert(self@.len() == pre.len());
            }
            args.append(&mut dep_out);
            proof {
                let deps = g0[i as int].down;
                assert forall|m: int| 0 <= m < k as int implies self@[#[trigger] deps[m]].cache
                    == pre[deps[m]].cache by {
                    assert(deps.contains(deps[m]));
                    assert(valid_id(g0, deps[m]));
                    assert(pre[deps[m]].cache is Some);
                }
                assert(forall|m: int|
                    0 <= m < k as int ==> #[trigger] deps.take(k as int)[m] == deps[m]);
                lemma_dep_outputs_same(pre, self@, deps.take(k as int));
                assert(deps.take(k as int + 1).drop_last() =~= deps.take(k as int));
                assert(deps.take(k as int + 1).last() == deps[k as int]);
                assert(dep_out_v == opt_or_empty(self@[deps[k as int]].cache));
                assert(args@ =~= dep_outputs(self@, deps.take(k as int + 1)));
            }
            k = k + 1;
        }
        proof {
            assert(g0[i as int].down.take(num as int) =~= g0[i as int].down);
        }
        match &self.nodes[i].input {
            Some(v) => {
                let mut tail = copy_words(v);
                args.append(&mut tail);
            },
            None => {},
        }
        proof {
            assert(self@[i as int].input == g0[i as int].input);
            assert(args@ =~= args_of(self@, i as int));
        }
        let f = self.nodes[i].func;
        proof {
            assert(f == self@[i as int].func);
            assert(total_func(f));
        }
        let ghost args_snapshot = args;
        let out = f(args);
        let ghost gpre = self@;
        self.nodes[i].cache = Some(out);
        self.nodes[i].busy = false;
        proof {
            assert(f == gpre[i as int].func);
            assert(total_func(f));
            assert(call_ensures(f, (args_snapshot,), out));
            assert(applies(gpre[i as int].func, args_of(gpre, i as int), out@));
            assert(forall|m: int|
                0 <= m < gpre.len() && m != i as int ==> #[trigger] self@[m] == gpre[m]);
            assert(self@[i as int].up == gpre[i as int].up);
            assert(self@[i as int].down == gpre[i as int].down);
            assert(self@[i as int].func == gpre[i as int].func);
            assert(self@[i as int].input == gpre[i as int].input);
            assert(self@[i as int].cache == Some(out@));
            assert(!self@[i as int].busy);
            assert(deps_cached(gpre, i as int)) by {
                assert forall|j: int| #[trigger] gpre[i as int].down.contains(j) implies gpre[j].cache
                    is Some by {
                    let m = choose|m: int|
                        0 <= m < gpre[i as int].down.len() && gpre[i as int].down[m] == j;
                    assert(gpre[i as int].down == g0[i as int].down);
                    assert(gpre[g0[i as int].down[m]].cache is Some);
                }
            }
            lemma_cache_fill_wf(gpre, self@, i as int, out@);
            lemma_fill_no_cycle(g0, gpre, i as int);
            assert forall|z: int|
                valid_id(g0, z) && g0[z].cache is None && (#[trigger] self@[z]).cache
                    is Some implies !on_stale_cycle(g0, z) by {
                if z != i as int {
                    assert(self@[z].cache == gpre[z].cache);
                }
            }
            lemma_ok_refutes_lasso(g0, self@, i as int);
        }
        Ok(())
    }
}

/// Copies a vector of node ids.
fn copy_ids(v: &Vec<usize>) -> (r: Vec<usize>)
    ensures
        r@ == v@,
{
    let mut r: Vec<usize> = Vec::new();
    let mut k: usize = 0;
    while k < v.len()
        invariant
            0 <= k <= v@.len(),
            r@ == v@.take(k as int),
        decreases v@.len() - k,
    {
        r.push(v[k]);
        proof {
            assert(r@ =~= v@.take(k as int + 1));
        }
        k = k + 1;
    }
    proof {
        assert(v@.take(v@.len() as int) =~= v@);
    }
    r
}

/// Copies a vector of value words.
fn copy_words(v: &Vec<u64>) -> (r: Vec<u64>)
    ensures
        r@ == v@,
{
    let mut r: Vec<u64> = Vec::new();
    let mut k: usize = 0;
    while k < v.len()
        invariant
            0 <= k <= v@.len(),
            r@ == v@.take(k as int),
        decreases v@.len() - k,
    {
        r.push(v[k]);
        proof {
            assert(r@ =~= v@.take(k as int + 1));
        }
        k = k + 1;
    }
    proof {
        assert(v@.take(v@.len() as int) =~= v@);
    }
    r
}

} // verus!
