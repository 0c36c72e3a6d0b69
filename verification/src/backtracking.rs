use vstd::prelude::*;
use crate::graph::{
    acyclic, lemma_stuck_not_acyclic, Graph, Graph0, edge_seq, graph_wf, has_edge, in_count,
    lemma_concat_contains,
    lemma_graph0_wf, lemma_ic_all_placed, lemma_ic_le_empty, lemma_ic_push,
    lemma_ic_zero_sources, lemma_move_take, lemma_no_dup_below_len, lemma_occ_take_step,
    lemma_push_contains, lemma_push_no_dup, lemma_remove_no_dup, lemma_tgt_edge_seq,
    lemma_tgt_le_len,
    lemma_tgt_take_step, lemma_topo_drop_last, lemma_topo_push, nodes_below, occ, tgt, topo_ok,
    vec_swap,
};
use crate::nrpr::{
    lemma_concat_no_dup_parts, lemma_placed_target_unplaced, relax, relax_pushes_upto,
    seed_pool_upto, seq_swap,
};

verus! {

/// One step of the depth-first search: the node placed and which ready
/// node it was at the time.
#[derive(Debug, Clone, Copy)]
struct Visit {
    node: usize,
    choice: usize,
}

/// The nodes placed so far, in placement order.
spec fn visit_nodes(vs: Seq<Visit>) -> Seq<usize> {
    vs.map_values(|v: Visit| v.node)
}

/// The independent reference enumerator: a plain backtracking search over
/// the ready pool, yielding every topological order of the graph.
#[derive(Debug)]
pub struct Traversals {
    graph: Graph0,
    visits: Vec<Visit>,
    next: Vec<usize>,
    deps: Vec<usize>,
    fresh: bool,
}

impl Traversals {
    pub closed spec fn graph_view(&self) -> Seq<Seq<usize>> {
        self.graph.succ_view()
    }

    pub closed spec fn order_spec(&self) -> Seq<usize> {
        visit_nodes(self.visits@)
    }

    pub closed spec fn next_len(&self) -> nat {
        self.next@.len()
    }

    pub closed spec fn last_choice(&self) -> usize {
        self.visits@.last().choice
    }

    /// The ready-pool indices the search has committed to, in placement
    /// order.
    pub closed spec fn choices_spec(&self) -> Seq<usize> {
        self.visits@.map_values(|v: Visit| v.choice)
    }

    /// The ready pool: the nodes whose every predecessor is placed, in the
    /// order the search keeps them.
    pub closed spec fn pool_spec(&self) -> Seq<usize> {
        self.next@
    }

    /// Whether the search has been asked for an order yet.
    pub closed spec fn fresh_spec(&self) -> bool {
        self.fresh
    }

    /// The search has visited its last order: it has been stepped at least
    /// once, the order is complete, and no recorded choice can be lowered
    /// any further.
    pub open spec fn search_spent(&self) -> bool {
        &&& !self.fresh_spec()
        &&& self.order_spec().len() == self.graph_view().len()
        &&& forall|t: int|
            0 <= t < self.choices_spec().len() ==> (#[trigger] self.choices_spec()[t]) == 0
    }

    pub closed spec fn wf(&self) -> bool {
        let gv = self.graph.succ_view();
        let ord = visit_nodes(self.visits@);
        &&& self.graph.wf()
        &&& self.deps@.len() == gv.len()
        &&& nodes_below(ord, gv.len() as int)
        &&& nodes_below(self.next@, gv.len() as int)
        &&& (ord + self.next@).no_duplicates()
        &&& forall|w: usize|
            (w as int) < gv.len() ==> (#[trigger] self.deps@[w as int]) as nat == in_count(
                gv,
                ord,
                w,
            )
        &&& forall|t: int|
            0 <= t < self.next@.len() ==> self.deps@[(#[trigger] self.next@[t]) as int] == 0usize
        &&& forall|w: usize|
            (w as int) < gv.len() && !ord.contains(w) && !self.next@.contains(w)
                ==> self.deps@[w as int] != 0usize
        &&& self.choices_spec().len() == self.order_spec().len()
        &&& (self.fresh ==> ord.len() == 0)
        &&& topo_ok(gv, ord)
    }

    /// Start a search over `graph`: count every node's in-degree and pool
    /// the nodes that depend on nothing.
    pub fn new(graph: Graph0) -> (r: Traversals)
        requires
            graph.wf(),
        ensures
            r.wf(),
            r.graph_view() == graph.succ_view(),
            r.order_spec().len() == 0,
            r.choices_spec().len() == 0,
            r.fresh_spec(),
            r.pool_spec() == seed_pool_upto(graph.succ_view(), graph.succ_view().len() as int),
    {
        let ghost gv = graph.succ_view();
        proof {
            lemma_graph0_wf(&graph);
        }
        let n = graph.size();
        let pairs = graph.edges();
        let mut deps: Vec<usize> = Vec::new();
        let mut z: usize = 0;
        while z < n
            invariant
                z <= n,
                deps@.len() == z as int,
                forall|w: int| 0 <= w < z ==> (#[trigger] deps@[w]) == 0usize,
            decreases n - z,
        {
            deps.push(0);
            z = z + 1;
        }
        proof {
            crate::graph::lemma_edge_seq_elem(gv, n as int);
            assert(pairs@.take(0) =~= Seq::<(usize, usize)>::empty());
        }
        let mut idx: usize = 0;
        while idx < pairs.len()
            invariant
                idx <= pairs@.len(),
                pairs@ == edge_seq(gv),
                gv == graph.succ_view(),
                graph_wf(gv),
                n as int == gv.len(),
                deps@.len() == n as int,
                forall|t: int| 0 <= t < pairs@.len() ==> {
                    let p = #[trigger] pairs@[t];
                    (p.0 as int) < n as int && gv[p.0 as int].contains(p.1)
                },
                forall|w: usize|
                    (w as int) < n as int ==> (#[trigger] deps@[w as int]) as nat == tgt(
                        pairs@.take(idx as int),
                        w,
                    ),
            decreases pairs@.len() - idx,
        {
            let (v1, w) = pairs[idx];
            proof {
                assert(pairs@[idx as int].0 == v1 && pairs@[idx as int].1 == w);
                let ti = choose|ti: int| 0 <= ti < gv[v1 as int].len() && gv[v1 as int][ti] == w;
                assert((w as int) < n as int);
                lemma_tgt_le_len(pairs@.take(idx as int), w);
            }
            let d = deps[w];
            deps.set(w, d + 1);
            proof {
                assert forall|w2: usize| (w2 as int) < n as int implies (#[trigger] deps@[
                w2 as int]) as nat == tgt(pairs@.take(idx + 1), w2) by {
                    lemma_tgt_take_step(pairs@, w2, idx as int);
                }
            }
            idx = idx + 1;
        }
        proof {
            assert(pairs@.take(pairs@.len() as int) =~= pairs@);
            assert forall|w: usize| (w as int) < n as int implies (#[trigger] deps@[w as int])
                as nat == in_count(gv, Seq::<usize>::empty(), w) by {
                lemma_tgt_edge_seq(gv, w, n as int);
            }
        }
        let mut next: Vec<usize> = Vec::new();
        let mut v0: usize = 0;
        proof {
            assert(next@ =~= seed_pool_upto(gv, 0));
        }
        while v0 < n
            invariant
                v0 <= n,
                n as int == gv.len(),
                deps@.len() == n as int,
                next@ == seed_pool_upto(gv, v0 as int),
                forall|w: usize|
                    (w as int) < n as int ==> (#[trigger] deps@[w as int]) as nat == in_count(
                        gv,
                        Seq::<usize>::empty(),
                        w,
                    ),
                next@.no_duplicates(),
                nodes_below(next@, n as int),
                forall|t: int| 0 <= t < next@.len() ==> ((#[trigger] next@[t]) as int) < v0 as int,
                forall|t: int|
                    0 <= t < next@.len() ==> deps@[(#[trigger] next@[t]) as int] == 0usize,
                forall|w: usize|
                    (w as int) < v0 as int && !next@.contains(w) ==> deps@[w as int] != 0usize,
            decreases n - v0,
        {
            let ghost next_pre = next@;
            if deps[v0] == 0 {
                proof {
                    if next@.contains(v0) {
                        let t = choose|t: int| 0 <= t < next@.len() && next@[t] == v0;
                    }
                    lemma_push_no_dup(next@, v0);
                }
                next.push(v0);
            }
            proof {
                assert forall|w: usize|
                    (w as int) < v0 as int + 1 && !next@.contains(w) implies deps@[w as int]
                    != 0usize by {
                    if deps@[v0 as int] == 0usize {
                        lemma_push_contains(next_pre, v0, w);
                    }
                }
                if deps@[v0 as int] == 0usize {
                    assert(next@ =~= next_pre + seq![v0]);
                    assert(next@ =~= seed_pool_upto(gv, v0 as int + 1));
                } else {
                    assert(next@ =~= seed_pool_upto(gv, v0 as int + 1));
                }
            }
            v0 = v0 + 1;
        }
        let visits: Vec<Visit> = Vec::new();
        let r = Traversals { graph, visits, next, deps, fresh: true };
        proof {
            assert(visit_nodes(r.visits@) =~= Seq::<usize>::empty());
            assert(visit_nodes(r.visits@) + r.next@ =~= r.next@);
        }
        r
    }

    /// Whether every node has been placed.
    pub fn is_done(&self) -> (r: bool)
        requires
            self.wf(),
        ensures
            r <==> self.order_spec().len() == self.graph_view().len(),
    {
        self.visits.len() == self.graph.size()
    }

    /// The order built so far.
    pub fn get_order(&self) -> (r: Vec<usize>)
        ensures
            r@ == self.order_spec(),
    {
        let mut r: Vec<usize> = Vec::new();
        let mut t: usize = 0;
        while t < self.visits.len()
            invariant
                t <= self.visits@.len(),
                r@ == visit_nodes(self.visits@).take(t as int),
            decreases self.visits@.len() - t,
        {
            r.push(self.visits[t].node);
            proof {
                assert(visit_nodes(self.visits@).take(t + 1) =~= visit_nodes(
                    self.visits@,
                ).take(t as int).push(self.visits@[t as int].node));
            }
            t = t + 1;
        }
        proof {
            assert(visit_nodes(self.visits@).take(self.visits@.len() as int) =~= visit_nodes(
                self.visits@,
            ));
        }
        r
    }

    /// Place the most recently pooled ready node.
    fn advance(&mut self)
        requires
            old(self).wf(),
            !old(self).fresh_spec(),
            old(self).next_len() > 0,
        ensures
            final(self).wf(),
            final(self).graph_view() == old(self).graph_view(),
            !final(self).fresh_spec(),
            final(self).order_spec() == old(self).order_spec().push(old(self).pool_spec().last()),
            final(self).choices_spec() == old(self).choices_spec().push(
                (old(self).pool_spec().len() - 1) as usize,
            ),
            final(self).pool_spec() == old(self).pool_spec().drop_last() + relax_pushes_upto(
                old(self).graph_view(),
                old(self).order_spec().push(old(self).pool_spec().last()),
                old(self).graph_view()[old(self).pool_spec().last() as int],
                Seq::<usize>::empty(),
                old(self).graph_view()[old(self).pool_spec().last() as int].len() as int,
            ),
    {
        let c = self.next.len() - 1;
        let ghost pool0 = self.next@;
        self.advance_to(c);
        proof {
            assert(pool0.update(c as int, pool0.last()).drop_last() =~= pool0.drop_last());
        }
    }

    /// Place the ready node at pool index `choice`, record the choice, and
    /// relax the node's successors: the pool loses that slot by a
    /// swap-removal and gains, in relaxation order, every successor whose
    /// last pending edge this was.
    fn advance_to(&mut self, choice: usize)
        requires
            old(self).wf(),
            !old(self).fresh_spec(),
            (choice as int) < old(self).next_len(),
        ensures
            final(self).wf(),
            final(self).graph_view() == old(self).graph_view(),
            !final(self).fresh_spec(),
            final(self).order_spec() == old(self).order_spec().push(
                old(self).pool_spec()[choice as int],
            ),
            final(self).choices_spec() == old(self).choices_spec().push(choice),
            final(self).pool_spec() == old(self).pool_spec().update(
                choice as int,
                old(self).pool_spec().last(),
            ).drop_last() + relax_pushes_upto(
                old(self).graph_view(),
                old(self).order_spec().push(old(self).pool_spec()[choice as int]),
                old(self).graph_view()[old(self).pool_spec()[choice as int] as int],
                Seq::<usize>::empty(),
                old(self).graph_view()[old(self).pool_spec()[choice as int] as int].len() as int,
            ),
    {
        let ghost gv = self.graph.succ_view();
        let ghost ord0 = visit_nodes(self.visits@);
        let ghost pool0 = self.next@;
        // pins the node count below the machine bound for the lemmas
        let _n = self.graph.size();
        proof {
            lemma_graph0_wf(&self.graph);
        }
        let v = self.next.swap_remove(choice);
        proof {
            assert(self.next@ =~= pool0.update(choice as int, pool0.last()).drop_last());
            lemma_move_take(ord0, pool0, choice as int);
            assert(self.deps@[pool0[choice as int] as int] == 0usize);
            assert(in_count(gv, ord0, v) == 0);
            assert forall|x: usize| #[trigger] has_edge(gv, x, v) implies ord0.contains(x) by {
                lemma_ic_zero_sources(gv, ord0, v, gv.len() as int, x);
            }
            lemma_topo_push(gv, ord0, v);
        }
        self.visits.push(Visit { node: v, choice });
        proof {
            assert(visit_nodes(self.visits@) =~= ord0.push(v));
            assert(self.choices_spec() =~= old(self).choices_spec().push(choice));
            assert forall|w: usize| (w as int) < gv.len() implies in_count(gv, ord0, w)
                == in_count(gv, ord0.push(v), w) + occ(gv[v as int], w) by {
                lemma_ic_push(gv, ord0, v, w, gv.len() as int);
            }
            assert forall|w: usize| #[trigger] has_edge(gv, v, w) implies !ord0.push(v).contains(
                w,
            ) by {
                lemma_placed_target_unplaced(gv, ord0, ord0.push(v), v, 0, false, v, w);
            }
            // a node outside both the longer order and the thinner pool was
            // outside both before, unless it is the node just placed
            assert forall|w: usize|
                (w as int) < gv.len() && !ord0.push(v).contains(w) && !self.next@.contains(
                    w,
                ) implies self.deps@[w as int] != 0usize by {
                lemma_push_contains(ord0, v, w);
                assert(!pool0.contains(w)) by {
                    if pool0.contains(w) {
                        let idx = choose|idx: int| 0 <= idx < pool0.len() && pool0[idx] == w;
                        if idx == choice as int {
                            assert(w == v);
                        } else if idx == pool0.len() - 1 {
                            if (choice as int) < pool0.len() - 1 {
                                assert(self.next@[choice as int] == w);
                            } else {
                                assert(w == v);
                            }
                        } else {
                            assert(self.next@[idx] == w);
                        }
                    }
                }
            }
        }
        relax(
            &self.graph,
            &mut self.deps,
            &mut self.next,
            v,
            Ghost(visit_nodes(self.visits@)),
            Ghost(Seq::<usize>::empty()),
        );
    }

    /// Undo the latest placement: restore its successors' in-degrees, pull
    /// the placed node back into the pool at the slot it was taken from,
    /// and say which slot that was.
    fn backtrack(&mut self) -> (r: usize)
        requires
            old(self).wf(),
            !old(self).fresh_spec(),
            old(self).order_spec().len() > 0,
        ensures
            final(self).wf(),
            final(self).graph_view() == old(self).graph_view(),
            final(self).order_spec() == old(self).order_spec().drop_last(),
            final(self).choices_spec() == old(self).choices_spec().drop_last(),
            !final(self).fresh_spec(),
            r == old(self).last_choice(),
            final(self).pool_spec() == ({
                let ord1 = old(self).order_spec().drop_last();
                let v = old(self).order_spec().last();
                let row = old(self).graph_view()[v as int];
                let q = bt_pool(
                    old(self).graph_view(),
                    ord1,
                    old(self).pool_spec(),
                    row,
                    0,
                ).push(v);
                let c = old(self).last_choice() as int;
                if c < q.len() - 1 {
                    seq_swap(q, c, q.len() - 1)
                } else {
                    q
                }
            }),
    {
        let ghost gv = self.graph.succ_view();
        let ghost ord0 = visit_nodes(self.visits@);
        let ghost ch0 = self.choices_spec();
        // pins the node count below the machine bound for the lemmas
        let _n = self.graph.size();
        proof {
            lemma_graph0_wf(&self.graph);
            lemma_concat_no_dup_parts(ord0, self.next@);
        }
        let vis = self.visits.pop().unwrap();
        let v = vis.node;
        let choice = vis.choice;
        let ghost ord1 = visit_nodes(self.visits@);
        proof {
            assert(self.choices_spec() =~= ch0.drop_last());
            assert(ord1 =~= ord0.drop_last());
            assert(ord0 =~= ord1.push(v));
            assert(ord0[ord0.len() - 1] == v);
            assert(!ord1.contains(v)) by {
                if ord1.contains(v) {
                    let q = choose|q: int| 0 <= q < ord1.len() && ord1[q] == v;
                    assert(ord0[q] == v);
                }
            }
            assert forall|w: usize| (w as int) < gv.len() implies in_count(gv, ord1, w)
                == in_count(gv, ord0, w) + occ(gv[v as int], w) by {
                lemma_ic_push(gv, ord1, v, w, gv.len() as int);
            }
            lemma_topo_drop_last(gv, ord0);
            assert(!self.next@.contains(v)) by {
                if self.next@.contains(v) {
                    let tt = choose|tt: int| 0 <= tt < self.next@.len() && self.next@[tt] == v;
                    assert((ord0 + self.next@)[ord0.len() - 1] == v);
                    assert((ord0 + self.next@)[ord0.len() + tt] == v);
                }
            }
        }
        proof {
            lemma_remove_no_dup(ord0 + self.next@, ord0.len() - 1);
            assert((ord0 + self.next@).remove(ord0.len() - 1) =~= ord1 + self.next@);
        }
        let ghost pool_entry = self.next@;
        let row = self.graph.successors(v);
        proof {
            assert(row@.take(row@.len() as int) =~= row@);
            assert(self.next@ == bt_pool(gv, ord1, pool_entry, row@, row@.len() as int));
            assert forall|w: usize|
                (w as int) < gv.len() && w != v && !ord1.contains(w) && !self.next@.contains(
                    w,
                ) implies self.deps@[w as int] != 0usize by {
                lemma_push_contains(ord1, v, w);
            }
        }
        let mut t = row.len();
        while t > 0
            invariant
                gv == self.graph.succ_view(),
                self.graph.wf(),
                graph_wf(gv),
                gv.len() <= usize::MAX,
                (v as int) < gv.len(),
                row@ == gv[v as int],
                t <= row@.len(),
                self.deps@.len() == gv.len(),
                ord1 == visit_nodes(self.visits@),
                nodes_below(ord1, gv.len() as int),
                nodes_below(self.next@, gv.len() as int),
                (ord1 + self.next@).no_duplicates(),
                !self.next@.contains(v),
                self.choices_spec() == ch0.drop_last(),
                !self.fresh,
                self.next@ == bt_pool(gv, ord1, pool_entry, row@, t as int),
                topo_ok(gv, ord1),
                forall|w: usize|
                    (w as int) < gv.len() ==> in_count(gv, ord1, w) == in_count(gv, ord0, w)
                        + occ(gv[v as int], w),
                forall|w: usize|
                    (w as int) < gv.len() ==> (#[trigger] self.deps@[w as int]) as nat + occ(
                        row@.take(t as int),
                        w,
                    ) == in_count(gv, ord0, w) + occ(row@, w),
                forall|tt: int|
                    0 <= tt < self.next@.len() ==> self.deps@[(#[trigger] self.next@[tt]) as int]
                        == 0usize,
                forall|w: usize|
                    (w as int) < gv.len() && w != v && !ord1.contains(w) && !self.next@.contains(
                        w,
                    ) ==> self.deps@[w as int] != 0usize,
            decreases t,
        {
            t = t - 1;
            let w0 = row[t];
            proof {
                assert(gv[v as int][t as int] == w0);
                assert((w0 as int) < gv.len());
            }
            if self.deps[w0] == 0 {
                // on every reachable state the node to give back is the
                // most recently pooled one, so this takes the pool's last
                let ghost pool_pre = self.next@;
                remove_value(&mut self.next, w0, Ghost(ord1));
                proof {
                    assert(!self.next@.contains(v)) by {
                        if self.next@.contains(v) {
                            let tt = choose|tt: int|
                                0 <= tt < self.next@.len() && self.next@[tt] == v;
                            assert(pool_pre.contains(v));
                        }
                    }
                    assert forall|tt: int|
                        0 <= tt < self.next@.len() implies self.deps@[(#[trigger] self.next@[
                    tt]) as int] == 0usize && ((self.next@[tt]) as int) < gv.len() by {
                        assert(pool_pre.contains(self.next@[tt]));
                        let t2 = choose|t2: int|
                            0 <= t2 < pool_pre.len() && pool_pre[t2] == self.next@[tt];
                    }
                }
            }
            let d = self.deps[w0];
            proof {
                lemma_occ_take_step(row@, w0, t as int);
                lemma_deps_bounded(gv, ord1, w0, &self.graph);
                assert((d as nat) + 1 <= in_count(gv, ord1, w0));
            }
            self.deps.set(w0, d + 1);
            proof {
                assert forall|w: usize| (w as int) < gv.len() implies (#[trigger] self.deps@[
                w as int]) as nat + occ(row@.take(t as int), w) == in_count(gv, ord0, w) + occ(
                    row@,
                    w,
                ) by {
                    lemma_occ_take_step(row@, w, t as int);
                }
                assert forall|tt: int|
                    0 <= tt < self.next@.len() implies self.deps@[(#[trigger] self.next@[
                tt]) as int] == 0usize by {
                    assert(self.next@[tt] != w0);
                }
            }
        }
        proof {
            assert(row@.take(0) =~= Seq::<usize>::empty());
            assert(in_count(gv, ord1, v) == 0) by {
                assert forall|v0: usize|
                    (v0 as int) < gv.len() && gv[v0 as int].contains(v) implies ord1.contains(
                    v0,
                ) by {
                    assert(has_edge(gv, v0, v));
                    assert(ord0[ord0.len() - 1] == v);
                    let q = choose|q: int| 0 <= q < ord0.len() - 1 && ord0[q] == v0;
                    assert(ord1[q] == v0);
                }
                lemma_ic_all_placed(gv, ord1, v, gv.len() as int);
            }
            assert(!(ord1 + self.next@).contains(v)) by {
                lemma_concat_contains(ord1, self.next@, v);
            }
            lemma_push_no_dup(ord1 + self.next@, v);
            assert((ord1 + self.next@).push(v) =~= ord1 + self.next@.push(v));
        }
        // inverse of the swap-removal that placed v
        let ghost pool_nov = self.next@;
        self.next.push(v);
        let len = self.next.len();
        if choice < len {
            let ghost pool_pre = self.next@;
            vec_swap(&mut self.next, choice, len - 1);
            proof {
                lemma_pool_swap_keeps(ord1, pool_pre, self.next@, choice as int, len - 1);
                assert forall|tt: int|
                    0 <= tt < self.next@.len() implies self.deps@[(#[trigger] self.next@[
                tt]) as int] == 0usize && ((self.next@[tt]) as int) < gv.len() by {
                    assert(pool_pre.contains(self.next@[tt]));
                    let t2 = choose|t2: int|
                        0 <= t2 < pool_pre.len() && pool_pre[t2] == self.next@[tt];
                }
            }
        }
        proof {
            assert(self.next@.contains(v)) by {
                assert(pool_nov.push(v)[pool_nov.len() as int] == v);
                assert(pool_nov.push(v).contains(v));
            }
            assert forall|w: usize|
                (w as int) < gv.len() && !ord1.contains(w) && !self.next@.contains(
                    w,
                ) implies self.deps@[w as int] != 0usize by {
                assert(w != v);
                assert(!pool_nov.contains(w)) by {
                    if pool_nov.contains(w) {
                        let idx = choose|idx: int|
                            0 <= idx < pool_nov.len() && pool_nov[idx] == w;
                        assert(pool_nov.push(v)[idx] == w);
                        assert(pool_nov.push(v).contains(w));
                        assert(self.next@.contains(w));
                    }
                }
            }
        }
        choice
    }

    /// Undo the latest placement and place the ready node just below the
    /// one that was taken.
    fn shift(&mut self)
        requires
            old(self).wf(),
            !old(self).fresh_spec(),
            old(self).order_spec().len() > 0,
            old(self).choices_spec().len() > 0,
            old(self).last_choice() > 0,
        ensures
            final(self).wf(),
            final(self).graph_view() == old(self).graph_view(),
            !final(self).fresh_spec(),
            ({
                let c = old(self).last_choice();
                let b = bt_state(
                    old(self).graph_view(),
                    old(self).order_spec(),
                    old(self).choices_spec(),
                    old(self).pool_spec(),
                );
                let m = if c >= 1 && ((c - 1) as int) < b.2.len() {
                    adv_state(old(self).graph_view(), b.0, b.1, b.2, (c - 1) as usize)
                } else {
                    b
                };
                final(self).order_spec() == m.0 && final(self).choices_spec() == m.1
                    && final(self).pool_spec() == m.2
            }),
    {
        let ghost c0 = self.last_choice();
        let ghost b0 = bt_state(
            self.graph_view(),
            self.order_spec(),
            self.choices_spec(),
            self.pool_spec(),
        );
        let choice = self.backtrack();
        proof {
            assert((self.order_spec(), self.choices_spec(), self.pool_spec()) == b0);
        }
        if choice >= 1 && choice - 1 < self.next.len() {
            self.advance_to(choice - 1);
            proof {
                assert((self.order_spec(), self.choices_spec(), self.pool_spec()) == adv_state(
                    self.graph_view(),
                    b0.0,
                    b0.1,
                    b0.2,
                    (c0 - 1) as usize,
                ));
            }
        }
    }

    /// The next complete topological order, or `None` once all have been
    /// seen: exactly what `next_model` says the walk yields, with the
    /// search left in exactly the state the walk stops at, so repeated
    /// calls follow the model.  Every yielded order is a permutation of
    /// the graph's nodes that respects every edge; on an acyclic graph
    /// `None` comes exactly when the search is spent.
    pub fn next(&mut self) -> (r: Option<Vec<usize>>)
        requires
            old(self).wf(),
        ensures
            final(self).wf(),
            final(self).graph_view() == old(self).graph_view(),
            r matches Some(v) ==> v@.len() == old(self).graph_view().len() && v@.no_duplicates()
                && nodes_below(v@, old(self).graph_view().len() as int) && topo_ok(
                old(self).graph_view(),
                v@,
            ),
            acyclic(old(self).graph_view()) ==> (r is None <==> old(self).search_spent()),
            !final(self).fresh_spec(),
            ({
                let m = next_model(
                    old(self).graph_view(),
                    old(self).order_spec(),
                    old(self).choices_spec(),
                    old(self).pool_spec(),
                    old(self).fresh_spec(),
                );
                &&& (r is Some <==> m.0 is Some)
                &&& (r matches Some(v) ==> m.0 == Option::Some(v@))
                &&& final(self).order_spec() == m.1
                &&& final(self).choices_spec() == m.2
                &&& final(self).pool_spec() == m.3
            }),
    {
        let ghost gv0 = self.graph_view();
        let ghost ch0 = self.choices_spec();
        let ghost done0 = self.order_spec().len() == gv0.len();
        let was_fresh = self.fresh;
        let ghost ord_len0 = self.order_spec().len();
        let ghost o0 = self.order_spec();
        let ghost p0 = self.pool_spec();
        let ghost mm = next_model(gv0, o0, ch0, p0, self.fresh_spec());
        self.fresh = false;
        proof {
            assert(self.choices_spec() =~= ch0.take(self.choices_spec().len() as int));
            assert(self.wf());
        }
        if self.is_done() {
            loop
                invariant
                    self.wf(),
                    !self.fresh,
                    self.graph_view() == gv0,
                    old(self).graph_view() == gv0,
                    self.choices_spec().len() <= ch0.len(),
                    self.choices_spec() == ch0.take(self.choices_spec().len() as int),
                    forall|t: int|
                        self.choices_spec().len() <= t < ch0.len() ==> (#[trigger] ch0[t]) == 0,
                    unwind_state(gv0, self.order_spec(), self.choices_spec(), self.pool_spec())
                        == unwind_state(gv0, o0, ch0, p0),
                ensures
                    self.wf(),
                    !self.fresh,
                    self.graph_view() == gv0,
                    self.choices_spec().len() <= ch0.len(),
                    self.choices_spec() == ch0.take(self.choices_spec().len() as int),
                    forall|t: int|
                        self.choices_spec().len() <= t < ch0.len() ==> (#[trigger] ch0[t]) == 0,
                    self.order_spec().len() == 0 || self.last_choice() != 0,
                    (self.order_spec(), self.choices_spec(), self.pool_spec()) == unwind_state(
                        gv0,
                        o0,
                        ch0,
                        p0,
                    ),
                decreases self.order_spec().len(),
            {
                if self.visits.len() == 0 {
                    proof {
                        assert(unwind_state(
                            gv0,
                            self.order_spec(),
                            self.choices_spec(),
                            self.pool_spec(),
                        ) == (self.order_spec(), self.choices_spec(), self.pool_spec()));
                    }
                    break ;
                }
                let lc = self.visits[self.visits.len() - 1].choice;
                proof {
                    assert(self.choices_spec().len() == self.visits@.len());
                    assert(self.choices_spec().last() == lc);
                    assert(ch0[self.choices_spec().len() - 1] == lc);
                }
                if lc != 0 {
                    proof {
                        assert(unwind_state(
                            gv0,
                            self.order_spec(),
                            self.choices_spec(),
                            self.pool_spec(),
                        ) == (self.order_spec(), self.choices_spec(), self.pool_spec()));
                    }
                    break ;
                }
                proof {
                    assert(visit_nodes(self.visits@).len() == self.visits@.len());
                }
                let ghost chp = self.choices_spec();
                let ghost op = self.order_spec();
                let ghost pp = self.pool_spec();
                self.backtrack();
                proof {
                    assert(self.choices_spec() == chp.drop_last());
                    assert(chp == ch0.take(chp.len() as int));
                    assert(self.choices_spec() =~= ch0.take(
                        self.choices_spec().len() as int,
                    ));
                    assert((self.order_spec(), self.choices_spec(), self.pool_spec())
                        == bt_state(gv0, op, chp, pp));
                    assert(unwind_state(gv0, op, chp, pp) == unwind_state(
                        gv0,
                        self.order_spec(),
                        self.choices_spec(),
                        self.pool_spec(),
                    ));
                }
            }
            if self.visits.len() == 0 {
                proof {
                    assert(self.choices_spec().len() == self.visits@.len());
                    assert forall|t: int| 0 <= t < ch0.len() implies (#[trigger] ch0[t])
                        == 0 by {}
                }
                if was_fresh {
                    // the first request on an already complete (empty)
                    // order: its one trivial order is owed
                    proof {
                        assert(ord_len0 == 0);
                        assert(gv0.len() == 0);
                        assert(self.choices_spec().len() == 0);
                        assert(self.order_spec().len() == 0);
                        assert(self.order_spec() =~= Seq::<usize>::empty());
                        assert(o0.len() == 0);
                        assert(unwind_state(gv0, o0, ch0, p0) == (o0, ch0, p0));
                        assert(mm == (Option::Some(o0), o0, ch0, p0));
                        assert((self.order_spec(), self.choices_spec(), self.pool_spec()) == (
                            o0,
                            ch0,
                            p0,
                        ));
                    }
                    return Some(self.get_order());
                }
                proof {
                    assert(mm == (
                        Option::None::<Seq<usize>>,
                        self.order_spec(),
                        self.choices_spec(),
                        self.pool_spec(),
                    ));
                }
                return None;
            }
            proof {
                assert(visit_nodes(self.visits@).len() == self.visits@.len());
                // the choice the unwinding stopped at refutes exhaustion
                assert(self.choices_spec().len() == self.visits@.len());
                assert(self.choices_spec().len() >= 1);
                assert(self.choices_spec().len() <= ch0.len()) by {
                    assert(self.choices_spec() == ch0.take(self.choices_spec().len() as int));
                }
                assert(self.choices_spec().last() == self.last_choice());
                assert(ch0[self.choices_spec().len() - 1] == self.last_choice());
                assert(!(forall|t: int| 0 <= t < ch0.len() ==> (#[trigger] ch0[t]) == 0));
            }
            let ghost u = unwind_state(gv0, o0, ch0, p0);
            let ghost so = self.order_spec();
            let ghost sc = self.choices_spec();
            let ghost sp = self.pool_spec();
            proof {
                assert((so, sc, sp) == u);
                assert(so == u.0 && sc == u.1 && sp == u.2);
                assert(self.last_choice() == sc.last());
                assert(!was_fresh) by {
                    if was_fresh {
                        assert(o0.len() == 0);
                        assert(unwind_state(gv0, o0, ch0, p0) == (o0, ch0, p0));
                    }
                }
            }
            self.shift();
            proof {
                // the state now matches the model's shifted middle state
                let c = sc.last();
                let b = bt_state(gv0, so, sc, sp);
                let m = if c >= 1 && ((c - 1) as int) < b.2.len() {
                    adv_state(gv0, b.0, b.1, b.2, (c - 1) as usize)
                } else {
                    b
                };
                assert(self.order_spec() == m.0);
                assert(self.choices_spec() == m.1);
                assert(self.pool_spec() == m.2);
                assert(b == bt_state(gv0, u.0, u.1, u.2));
                assert(c == u.1.last());
                assert((self.order_spec(), self.choices_spec(), self.pool_spec()) == ({
                    let c2 = u.1.last();
                    let b2 = bt_state(gv0, u.0, u.1, u.2);
                    if c2 >= 1 && ((c2 - 1) as int) < b2.2.len() {
                        adv_state(gv0, b2.0, b2.1, b2.2, (c2 - 1) as usize)
                    } else {
                        b2
                    }
                }));
            }
        }
        let ghost spent0 = !was_fresh && done0 && (forall|t: int|
            0 <= t < ch0.len() ==> (#[trigger] ch0[t]) == 0);
        let ghost fo = self.order_spec();
        let ghost fc = self.choices_spec();
        let ghost fp = self.pool_spec();
        proof {
            assert(!spent0);
            let f = adv_run(gv0, fo, fc, fp);
            assert(mm == (
                if f.0.len() == gv0.len() {
                    Option::Some(f.0)
                } else {
                    Option::None::<Seq<usize>>
                },
                f.0,
                f.1,
                f.2,
            ));
        }
        let n = self.graph.size();
        while self.visits.len() < n
            invariant
                self.wf(),
                !self.fresh,
                self.graph_view() == gv0,
                old(self).graph_view() == gv0,
                n as int == gv0.len(),
                !spent0,
                spent0 == (!was_fresh && done0 && (forall|t: int|
                    0 <= t < ch0.len() ==> (#[trigger] ch0[t]) == 0)),
                adv_run(gv0, self.order_spec(), self.choices_spec(), self.pool_spec())
                    == adv_run(gv0, fo, fc, fp),
                mm == next_model(
                    gv0,
                    old(self).order_spec(),
                    old(self).choices_spec(),
                    old(self).pool_spec(),
                    old(self).fresh_spec(),
                ),
                mm == ({
                    let f = adv_run(gv0, fo, fc, fp);
                    (
                        if f.0.len() == gv0.len() {
                            Option::Some(f.0)
                        } else {
                            Option::None::<Seq<usize>>
                        },
                        f.0,
                        f.1,
                        f.2,
                    )
                }),
            decreases n as int - self.order_spec().len(),
        {
            if self.next.len() == 0 {
                // an empty pool below a full order refutes acyclicity, so
                // nothing is owed on this branch
                proof {
                    lemma_concat_no_dup_parts(self.order_spec(), self.next@);
                    assert forall|w: usize|
                        (w as int) < gv0.len() && !self.order_spec().contains(
                            w,
                        ) implies in_count(gv0, self.order_spec(), w) > 0 by {
                        assert(!self.next@.contains(w));
                        assert(self.deps@[w as int] != 0usize);
                    }
                    lemma_no_dup_below_len(self.order_spec() + self.next@, gv0.len() as int);
                    lemma_stuck_not_acyclic(gv0, self.order_spec());
                    // the walk model stops exactly here, short of a full
                    // order
                    assert(adv_run(gv0, self.order_spec(), self.choices_spec(), self.pool_spec())
                        == (self.order_spec(), self.choices_spec(), self.pool_spec()));
                    assert(mm == (
                        Option::None::<Seq<usize>>,
                        self.order_spec(),
                        self.choices_spec(),
                        self.pool_spec(),
                    ));
                }
                return None;
            }
            proof {
                lemma_concat_no_dup_parts(self.order_spec(), self.next@);
                lemma_no_dup_below_len(self.order_spec() + self.next@, gv0.len() as int);
            }
            let ghost ao = self.order_spec();
            let ghost ac = self.choices_spec();
            let ghost ap = self.pool_spec();
            self.advance();
            proof {
                assert((self.order_spec(), self.choices_spec(), self.pool_spec()) == adv_state(
                    gv0,
                    ao,
                    ac,
                    ap,
                    (ap.len() - 1) as usize,
                ));
                assert(adv_run(gv0, ao, ac, ap) == adv_run(
                    gv0,
                    self.order_spec(),
                    self.choices_spec(),
                    self.pool_spec(),
                ));
            }
        }
        proof {
            lemma_concat_no_dup_parts(self.order_spec(), self.next@);
            lemma_no_dup_below_len(self.order_spec() + self.next@, gv0.len() as int);
            assert(self.order_spec().len() == self.visits@.len());
            assert(self.order_spec().len() == gv0.len());
            assert(adv_run(gv0, self.order_spec(), self.choices_spec(), self.pool_spec())
                == (self.order_spec(), self.choices_spec(), self.pool_spec()));
            assert(mm == (
                Option::Some(self.order_spec()),
                self.order_spec(),
                self.choices_spec(),
                self.pool_spec(),
            ));
        }
        let out = self.get_order();
        Some(out)
    }
}

/// The pool with the one occurrence of `w` taken out by a swap-removal,
/// or unchanged where `w` is absent.
pub open spec fn pool_remove(pool: Seq<usize>, w: usize) -> Seq<usize> {
    if pool.contains(w) {
        pool.update(pool.index_of(w), pool.last()).drop_last()
    } else {
        pool
    }
}

/// The in-degree a target carries while the backtracking walk has undone
/// the relaxations of `row` past `t`: zero exactly when this is the edge
/// whose consumption pooled it.  `ord1` is the order with the undone node
/// already removed.
pub open spec fn bt_zero(gv: Seq<Seq<usize>>, ord1: Seq<usize>, row: Seq<usize>, t: int) -> bool {
    in_count(gv, ord1, row[t]) == occ(row.take(t + 1), row[t])
}

/// The pool after the backtracking walk has undone the relaxations of
/// `row[t..]`, last edge first.
pub open spec fn bt_pool(
    gv: Seq<Seq<usize>>,
    ord1: Seq<usize>,
    pool: Seq<usize>,
    row: Seq<usize>,
    t: int,
) -> Seq<usize>
    decreases row.len() - t,
{
    if t < 0 || t >= row.len() {
        pool
    } else {
        let rest = bt_pool(gv, ord1, pool, row, t + 1);
        if bt_zero(gv, ord1, row, t) {
            pool_remove(rest, row[t])
        } else {
            rest
        }
    }
}

/// One undo step of the search, over its abstract state: drop the last
/// placement, restore the pool, and put the node back at the slot it was
/// taken from.
pub open spec fn bt_state(
    gv: Seq<Seq<usize>>,
    order: Seq<usize>,
    choices: Seq<usize>,
    pool: Seq<usize>,
) -> (Seq<usize>, Seq<usize>, Seq<usize>) {
    let ord1 = order.drop_last();
    let v = order.last();
    let row = gv[v as int];
    let q = bt_pool(gv, ord1, pool, row, 0).push(v);
    let c = choices.last() as int;
    (
        ord1,
        choices.drop_last(),
        if c < q.len() - 1 {
            seq_swap(q, c, q.len() - 1)
        } else {
            q
        },
    )
}

/// One placement step of the search, over its abstract state: place the
/// pool node at `choice` and relax its edges.
pub open spec fn adv_state(
    gv: Seq<Seq<usize>>,
    order: Seq<usize>,
    choices: Seq<usize>,
    pool: Seq<usize>,
    choice: usize,
) -> (Seq<usize>, Seq<usize>, Seq<usize>) {
    let v = pool[choice as int];
    let o2 = order.push(v);
    (
        o2,
        choices.push(choice),
        pool.update(choice as int, pool.last()).drop_last() + relax_pushes_upto(
            gv,
            o2,
            gv[v as int],
            Seq::<usize>::empty(),
            gv[v as int].len() as int,
        ),
    )
}

/// Undo placements while the last recorded choice cannot be lowered.
pub open spec fn unwind_state(
    gv: Seq<Seq<usize>>,
    order: Seq<usize>,
    choices: Seq<usize>,
    pool: Seq<usize>,
) -> (Seq<usize>, Seq<usize>, Seq<usize>)
    decreases order.len(),
{
    if order.len() == 0 || choices.len() == 0 || choices.last() != 0 {
        (order, choices, pool)
    } else {
        let b = bt_state(gv, order, choices, pool);
        unwind_state(gv, b.0, b.1, b.2)
    }
}

/// Greedily place the most recently pooled node until the order is
/// complete or the pool is dry.
pub open spec fn adv_run(
    gv: Seq<Seq<usize>>,
    order: Seq<usize>,
    choices: Seq<usize>,
    pool: Seq<usize>,
) -> (Seq<usize>, Seq<usize>, Seq<usize>)
    decreases gv.len() - order.len(),
{
    if order.len() >= gv.len() || pool.len() == 0 {
        (order, choices, pool)
    } else {
        let a = adv_state(gv, order, choices, pool, (pool.len() - 1) as usize);
        adv_run(gv, a.0, a.1, a.2)
    }
}

/// One request on the search, over its abstract state: what it yields and
/// the state it leaves behind.  From a complete order the walk first
/// unwinds spent choices and shifts the deepest live one; the first
/// request on an already complete (empty) order yields it as it stands.
pub open spec fn next_model(
    gv: Seq<Seq<usize>>,
    order: Seq<usize>,
    choices: Seq<usize>,
    pool: Seq<usize>,
    fresh: bool,
) -> (Option<Seq<usize>>, Seq<usize>, Seq<usize>, Seq<usize>) {
    if order.len() == gv.len() && fresh {
        (Option::Some(order), order, choices, pool)
    } else if order.len() == gv.len() {
        let u = unwind_state(gv, order, choices, pool);
        if u.0.len() == 0 {
            (Option::None, u.0, u.1, u.2)
        } else {
            let c = u.1.last();
            let b = bt_state(gv, u.0, u.1, u.2);
            let m = if c >= 1 && ((c - 1) as int) < b.2.len() {
                adv_state(gv, b.0, b.1, b.2, (c - 1) as usize)
            } else {
                b
            };
            let f = adv_run(gv, m.0, m.1, m.2);
            (
                if f.0.len() == gv.len() {
                    Option::Some(f.0)
                } else {
                    Option::None
                },
                f.0,
                f.1,
                f.2,
            )
        }
    } else {
        let f = adv_run(gv, order, choices, pool);
        (
            if f.0.len() == gv.len() {
                Option::Some(f.0)
            } else {
                Option::None
            },
            f.0,
            f.1,
            f.2,
        )
    }
}

/// How many orders the search yields from the given abstract state within
/// the step budget.
pub open spec fn oracle_run_count(
    gv: Seq<Seq<usize>>,
    order: Seq<usize>,
    choices: Seq<usize>,
    pool: Seq<usize>,
    fresh: bool,
    fuel: nat,
) -> nat
    decreases fuel,
{
    if fuel == 0 {
        0
    } else {
        let m = next_model(gv, order, choices, pool, fresh);
        if m.0 is Some {
            1 + oracle_run_count(gv, m.1, m.2, m.3, false, (fuel - 1) as nat)
        } else {
            0
        }
    }
}

pub proof fn lemma_oracle_count_le_fuel(
    gv: Seq<Seq<usize>>,
    order: Seq<usize>,
    choices: Seq<usize>,
    pool: Seq<usize>,
    fresh: bool,
    fuel: nat,
)
    ensures
        oracle_run_count(gv, order, choices, pool, fresh, fuel) <= fuel,
    decreases fuel,
{
    if fuel > 0 {
        let m = next_model(gv, order, choices, pool, fresh);
        if m.0 is Some {
            lemma_oracle_count_le_fuel(gv, m.1, m.2, m.3, false, (fuel - 1) as nat);
        }
    }
}

/// A well-formed search holds at most one slot per node, and one recorded
/// choice per placed node.
pub proof fn lemma_order_bounded(t: &Traversals)
    requires
        t.wf(),
    ensures
        t.order_spec().len() <= t.graph_view().len(),
        t.choices_spec().len() == t.order_spec().len(),
{
    lemma_concat_no_dup_parts(t.order_spec(), pool_of(t));
    lemma_no_dup_below_len(t.order_spec() + pool_of(t), t.graph_view().len() as int);
}

/// The ready pool, for the bound above.
spec fn pool_of(t: &Traversals) -> Seq<usize> {
    t.next@
}

/// The in-degree bookkeeping never outgrows the graph's total edge count.
proof fn lemma_deps_bounded(gv: Seq<Seq<usize>>, placed: Seq<usize>, w: usize, g: &Graph0)
    requires
        g.wf(),
        gv == g.succ_view(),
    ensures
        in_count(gv, placed, w) <= usize::MAX,
{
    lemma_graph0_wf(g);
    lemma_ic_le_empty(gv, placed, w, gv.len() as int);
    lemma_tgt_edge_seq(gv, w, gv.len() as int);
    lemma_tgt_le_len(edge_seq(gv), w);
}

/// Exchanging two pool slots changes nothing the bookkeeping cares about.
proof fn lemma_pool_swap_keeps(ord: Seq<usize>, pre: Seq<usize>, post: Seq<usize>, x: int, y: int)
    requires
        0 <= x < pre.len(),
        0 <= y < pre.len(),
        post == pre.update(x, pre[y]).update(y, pre[x]),
        (ord + pre).no_duplicates(),
    ensures
        (ord + post).no_duplicates(),
        forall|t: int| 0 <= t < post.len() ==> pre.contains(#[trigger] post[t]),
        forall|x: usize| pre.contains(x) ==> post.contains(x),
        post.len() == pre.len(),
{
    assert(ord + post =~= (ord + pre).update(ord.len() + x, pre[y]).update(
        ord.len() + y,
        pre[x],
    ));
    assert((ord + pre)[ord.len() + x] == pre[x]);
    assert((ord + pre)[ord.len() + y] == pre[y]);
    lemma_swap_no_dup_general(ord + pre, ord.len() + x, ord.len() + y);
    assert forall|t: int| 0 <= t < post.len() implies pre.contains(#[trigger] post[t]) by {
        if t == x {
            assert(pre[y] == post[t]);
        } else if t == y {
            assert(pre[x] == post[t]);
        } else {
            assert(pre[t] == post[t]);
        }
    }
    assert forall|xv: usize| pre.contains(xv) implies post.contains(xv) by {
        let i = choose|i: int| 0 <= i < pre.len() && pre[i] == xv;
        if i == x {
            assert(post[y] == xv);
        } else if i == y {
            assert(post[x] == xv);
        } else {
            assert(post[i] == xv);
        }
    }
}

proof fn lemma_swap_no_dup_general<A>(s: Seq<A>, x: int, y: int)
    requires
        0 <= x < s.len(),
        0 <= y < s.len(),
        s.no_duplicates(),
    ensures
        s.update(x, s[y]).update(y, s[x]).no_duplicates(),
{
    let s2 = s.update(x, s[y]).update(y, s[x]);
    assert forall|i1: int, i2: int|
        0 <= i1 < s2.len() && 0 <= i2 < s2.len() && i1 != i2 implies s2[i1] != s2[i2] by {
        let j1: int = if i1 == x {
            y
        } else if i1 == y {
            x
        } else {
            i1
        };
        let j2: int = if i2 == x {
            y
        } else if i2 == y {
            x
        } else {
            i2
        };
        assert(s2[i1] == s[j1]);
        assert(s2[i2] == s[j2]);
    }
}

/// Dropping one pool entry keeps the joint freedom from duplicates.
proof fn lemma_remove_no_dup_concat(ord: Seq<usize>, pool: Seq<usize>, p: int)
    requires
        (ord + pool).no_duplicates(),
        0 <= p < pool.len(),
    ensures
        (ord + pool.remove(p)).no_duplicates(),
{
    lemma_remove_no_dup(ord + pool, ord.len() + p);
    assert((ord + pool).remove(ord.len() + p) =~= ord + pool.remove(p));
}

/// Take the one occurrence of `w` out of the pool, wherever it stands; on
/// every reachable state it is the last entry, and the pool keeps its
/// order.
fn remove_value(pool: &mut Vec<usize>, w: usize, Ghost(ord): Ghost<Seq<usize>>)
    requires
        (ord + old(pool)@).no_duplicates(),
    ensures
        (ord + final(pool)@).no_duplicates(),
        forall|t: int|
            0 <= t < final(pool)@.len() ==> old(pool)@.contains(#[trigger] final(pool)@[t]),
        forall|x: usize| old(pool)@.contains(x) && x != w ==> final(pool)@.contains(x),
        !final(pool)@.contains(w),
        final(pool)@ == pool_remove(old(pool)@, w),
{
    let ghost pool0 = pool@;
    let mut t: usize = 0;
    while t < pool.len()
        invariant
            pool@ == pool0,
            old(pool)@ == pool0,
            t <= pool0.len(),
            (ord + pool0).no_duplicates(),
            forall|tt: int| 0 <= tt < t ==> (#[trigger] pool0[tt]) != w,
        decreases pool0.len() - t,
    {
        if pool[t] == w {
            let ghost p = t as int;
            let last = pool.len() - 1;
            vec_swap(pool, t, last);
            let ghost swapped = pool@;
            let _taken = pool.pop();
            proof {
                assert(swapped =~= pool0.update(p, pool0[last as int]).update(
                    last as int,
                    pool0[p],
                ));
                lemma_pool_swap_keeps(ord, pool0, swapped, p, last as int);
                assert(pool@ =~= swapped.remove(last as int));
                lemma_remove_no_dup_concat(ord, swapped, last as int);
                assert forall|tt: int| 0 <= tt < pool@.len() implies pool0.contains(
                    #[trigger] pool@[tt],
                ) by {
                    assert(pool@[tt] == swapped[tt]);
                    assert(pool0.contains(swapped[tt]));
                }
                assert(!pool@.contains(w)) by {
                    if pool@.contains(w) {
                        let tw = choose|tw: int| 0 <= tw < pool@.len() && pool@[tw] == w;
                        let c = ord + pool0;
                        assert(pool@[tw] == swapped[tw]);
                        if tw == p {
                            assert(swapped[tw] == pool0[last as int]);
                            if p != last as int {
                                assert(c[ord.len() + p] == w);
                                assert(c[ord.len() + last] == w);
                            }
                        } else {
                            assert(swapped[tw] == pool0[tw]);
                            assert(c[ord.len() + tw] == w);
                            assert(c[ord.len() + p] == w);
                        }
                    }
                }
                lemma_concat_no_dup_parts(ord, pool0);
                assert(pool0.contains(w));
                assert(pool0.index_of(w) == p) by {
                    let j = pool0.index_of(w);
                    assert(0 <= j < pool0.len() && pool0[j] == w);
                }
                assert(pool@ =~= pool_remove(pool0, w));
                assert forall|x: usize| pool0.contains(x) && x != w implies pool@.contains(
                    x,
                ) by {
                    let idx0 = choose|idx0: int| 0 <= idx0 < pool0.len() && pool0[idx0] == x;
                    assert(idx0 != p);
                    if idx0 == last as int {
                        assert(p < last as int);
                        assert(pool@[p] == swapped[p]);
                        assert(swapped[p] == pool0[last as int]);
                    } else {
                        assert(pool@[idx0] == swapped[idx0]);
                        assert(swapped[idx0] == pool0[idx0]);
                    }
                }
            }
            return ;
        }
        t = t + 1;
    }
    proof {
        assert(!pool@.contains(w)) by {
            if pool@.contains(w) {
                let tw = choose|tw: int| 0 <= tw < pool@.len() && pool@[tw] == w;
            }
        }
        assert forall|t2: int| 0 <= t2 < pool@.len() implies pool0.contains(
            #[trigger] pool@[t2],
        ) by {
            assert(pool0[t2] == pool@[t2]);
        }
    }
}

} // verus!
