use vstd::prelude::*;
use vstd::multiset::Multiset;
use vstd::pervasive::VecAdditionalExecFns;
use crate::bits::{bits_of, bv_get, bv_new, bv_set};
use crate::glp::{states, GLPIterStates, GLPSubProc};
use crate::sched::{scan_init, scan_sel, scan_step, thread_init, thread_sel, thread_step};
use crate::graph::{
    acyclic, copy_usize_vec, edge_seq, graph_wf, has_edge, in_count, lemma_concat_contains,
    lemma_edge_seq_elem, lemma_edge_seq_has_edge, lemma_graph0_wf, lemma_ic_push,
    lemma_ic_zero_sources, lemma_move_pop_push, lemma_no_dup_below_len, lemma_occ_take_mono,
    lemma_occ_take_step, lemma_push_contains, lemma_push_no_dup, lemma_stuck_not_acyclic,
    lemma_swap_props, lemma_tgt_edge_seq, lemma_tgt_le_len, lemma_tgt_take_step,
    lemma_topo_push, nodes_below, occ, tgt, topo_ok, vec_swap, Graph, Graph0,
};

verus! {

/// One elementary edit to the current order: do nothing, exchange two
/// absolute slots, or flip a level's orientation.
#[derive(Debug, Clone, Copy, PartialEq, Eq, Structural)]
pub enum Move {
    Noop,
    Swap(usize, usize),
    FlipSign,
}

/// The two values in ascending order.
fn sorted(a: usize, b: usize) -> (r: (usize, usize))
    ensures
        r.0 <= r.1,
        (r.0 == a && r.1 == b) || (r.0 == b && r.1 == a),
{
    if b < a {
        (b, a)
    } else {
        (a, b)
    }
}

/// Where the bit for edge `(v, w)` lives in the flattened adjacency matrix.
fn edge_pos(n: usize, v: usize, w: usize) -> (r: usize)
    requires
        v < n,
        w < n,
        n as int * n as int <= usize::MAX,
    ensures
        r as int == n as int * v as int + w as int,
        (r as int) < n as int * n as int,
{
    proof {
        lemma_edge_pos_bound(n as int, v as int, w as int);
    }
    n * v + w
}

proof fn lemma_edge_pos_bound(n: int, v: int, w: int)
    by (nonlinear_arith)
    requires
        0 <= v < n,
        0 <= w < n,
    ensures
        n * v + w < n * n,
{
}

proof fn lemma_edge_pos_inj(n: int, v1: int, w1: int, v2: int, w2: int)
    by (nonlinear_arith)
    requires
        0 <= v1 < n,
        0 <= w1 < n,
        0 <= v2 < n,
        0 <= w2 < n,
        n * v1 + w1 == n * v2 + w2,
    ensures
        v1 == v2,
        w1 == w2,
{
}

/// Whether the flattened adjacency matrix holds the edge `(v, w)`.
pub open spec fn adj_bit(ab: Seq<bool>, n: usize, v: usize, w: usize) -> bool {
    ab[n as int * v as int + w as int]
}

/// The move-selection decision table, over the adjacency bits, the current
/// order, a level's slice base `ji`, its sorted window positions `lo < hi`
/// relative to the base, and the level's parity and sign bits.
#[verifier::opaque]
pub open spec fn spec_next_move(
    ab: Seq<bool>,
    n: usize,
    lseq: Seq<usize>,
    ji: usize,
    lo: usize,
    hi: usize,
    ev: bool,
    sv: bool,
) -> Move {
    let m = lseq.len() as int;
    if hi == 1 {
        if sv == !ev {
            Move::Noop
        } else if ji + hi + 1 >= m || adj_bit(ab, n, lseq[ji + hi], lseq[ji + hi + 1]) {
            Move::FlipSign
        } else {
            Move::Swap(hi, (hi + 1) as usize)
        }
    } else if lo == 0 && sv == !ev {
        Move::Swap(hi, (hi - 1) as usize)
    } else {
        let rw = (hi % 2 == 1) != ev;
        let u: Option<usize> = if rw == sv && lo + 1 != hi && !adj_bit(
            ab,
            n,
            lseq[ji + lo],
            lseq[ji + lo + 1],
        ) {
            Option::Some((lo + 1) as usize)
        } else if rw != sv && (lo > 1 || (lo > 0 && sv == ev)) {
            Option::Some((lo - 1) as usize)
        } else {
            Option::None
        };
        if u is Some {
            Move::Swap(lo, u->0)
        } else if rw == sv && lo > 0 {
            Move::FlipSign
        } else if ji + hi + 1 < m && !adj_bit(ab, n, lseq[ji + hi], lseq[ji + hi + 1]) {
            Move::Swap(hi, (hi + 1) as usize)
        } else if rw == ev && lo > 0 {
            Move::Swap(lo, (lo - 1) as usize)
        } else {
            Move::FlipSign
        }
    }
}

/// Pick the move that carries the level's window one step onward; positions
/// in the result are relative to the slice base `ji`.
fn next_move(
    ab: &bit_vec::BitVec,
    n: usize,
    lv: &Vec<usize>,
    ji: usize,
    lo: usize,
    hi: usize,
    ev: bool,
    sv: bool,
) -> (r: Move)
    requires
        bits_of(*ab).len() == n as int * n as int,
        n as int * n as int <= usize::MAX,
        nodes_below(lv@, n as int),
        lo < hi,
        ji + hi < lv@.len(),
    ensures
        r == spec_next_move(bits_of(*ab), n, lv@, ji, lo, hi, ev, sv),
{
    proof {
        reveal(spec_next_move);
    }
    let m = lv.len();
    if hi == 1 {
        if sv == !ev {
            Move::Noop
        } else if ji + hi + 1 >= m || bv_get(ab, edge_pos(n, lv[ji + hi], lv[ji + hi + 1])) {
            Move::FlipSign
        } else {
            Move::Swap(hi, hi + 1)
        }
    } else if lo == 0 && sv == !ev {
        Move::Swap(hi, hi - 1)
    } else {
        let rw = (hi % 2 == 1) != ev;
        let u: Option<usize> = if rw == sv && lo + 1 != hi && !bv_get(
            ab,
            edge_pos(n, lv[ji + lo], lv[ji + lo + 1]),
        ) {
            Option::Some(lo + 1)
        } else if rw != sv && (lo > 1 || (lo > 0 && sv == ev)) {
            Option::Some(lo - 1)
        } else {
            Option::None
        };
        match u {
            Option::Some(u) => Move::Swap(lo, u),
            Option::None => {
                if rw == sv && lo > 0 {
                    Move::FlipSign
                } else if ji + hi + 1 < m && !bv_get(ab, edge_pos(n, lv[ji + hi], lv[ji + hi + 1]))
                {
                    Move::Swap(hi, hi + 1)
                } else if rw == ev && lo > 0 {
                    Move::Swap(lo, lo - 1)
                } else {
                    Move::FlipSign
                }
            },
        }
    }
}

/// The whole observable state of the sub-process, as one abstract value.
#[verifier::ext_equal]
pub struct NrprView {
    pub n: nat,
    pub k: nat,
    pub adj: Seq<bool>,
    pub l: Seq<usize>,
    pub j: Seq<usize>,
    pub ix: Seq<usize>,
    pub s: Seq<bool>,
    pub e: Seq<bool>,
}

/// The move the decision table picks for interior level `i` of state `v`,
/// with positions relative to the level's slice base.
pub open spec fn level_move(v: NrprView, i: int) -> Move {
    let ji = v.j[2 * i] as int;
    let a = v.ix[2 * i] as int;
    let b = v.ix[2 * i + 1] as int;
    let lo = (if a < b {
        a
    } else {
        b
    }) - ji;
    let hi = (if a < b {
        b
    } else {
        a
    }) - ji;
    spec_next_move(
        v.adj,
        v.n as usize,
        v.l,
        ji as usize,
        lo as usize,
        hi as usize,
        v.e[i],
        v.s[i],
    )
}

/// Two slots of a sequence exchanged.
pub open spec fn seq_swap(s: Seq<usize>, x: int, y: int) -> Seq<usize> {
    s.update(x, s[y]).update(y, s[x])
}

/// One step of the sub-process at position `i`, over the abstract state:
/// the successor state, the answer flag, and the yielded edit.
pub open spec fn nrpr_step(v: NrprView, i: int) -> (NrprView, bool, Move) {
    if i == v.k as int {
        if v.k > 0 {
            let p = 2 * (v.k as int) - 2;
            let x = v.ix[p] as int;
            let y = v.ix[p + 1] as int;
            (
                NrprView {
                    l: seq_swap(v.l, x, y),
                    ix: v.ix.update(p, v.ix[p + 1]).update(p + 1, v.ix[p]),
                    s: v.s.update(i, false),
                    ..v
                },
                false,
                Move::Swap(v.ix[p + 1], v.ix[p]),
            )
        } else {
            (NrprView { s: v.s.update(i, false), ..v }, false, Move::Noop)
        }
    } else {
        let ji = v.j[2 * i] as int;
        let mid = match level_move(v, i) {
            Move::Swap(ra, rb) => {
                let a = ji + ra;
                let b = ji + rb;
                let ix2 = if v.ix[2 * i] as int == a {
                    v.ix.update(2 * i, b as usize)
                } else {
                    v.ix.update(2 * i + 1, b as usize)
                };
                (seq_swap(v.l, a, b), ix2, v.s, Move::Swap(a as usize, b as usize))
            },
            Move::FlipSign => {
                if i > 0 {
                    let p = 2 * i - 2;
                    let x = v.ix[p] as int;
                    let y = v.ix[p + 1] as int;
                    (
                        seq_swap(v.l, x, y),
                        v.ix.update(p, v.ix[p + 1]).update(p + 1, v.ix[p]),
                        v.s.update(i, !v.s[i]),
                        Move::Swap(v.ix[p + 1], v.ix[p]),
                    )
                } else {
                    (v.l, v.ix, v.s.update(i, !v.s[i]), Move::FlipSign)
                }
            },
            Move::Noop => (v.l, v.ix, v.s, Move::Noop),
        };
        let home = win_home(v.j, mid.1, i);
        let vi = !(home && mid.2[i] != v.e[i]);
        let e2 = if vi {
            v.e
        } else {
            v.e.update(i, !v.e[i])
        };
        (NrprView { l: mid.0, ix: mid.1, s: mid.2, e: e2, ..v }, vi, mid.3)
    }
}

/// The recorded anchor pairs: adjacent ascending position pairs, strictly
/// increasing across levels, all within the order.
pub open spec fn anchors_ok(jv: Seq<usize>, m: int) -> bool {
    &&& jv.len() % 2 == 0
    &&& forall|t: int| 0 <= t < jv.len() ==> ((#[trigger] jv[t]) as int) < m
    &&& forall|t: int| 0 < t < jv.len() ==> (jv[t - 1] as int) < ((#[trigger] jv[t]) as int)
    &&& forall|t: int| 0 <= t < jv.len() && t % 2 == 1 ==> ((#[trigger] jv[t]) as int) == jv[t - 1]
        + 1
}

/// Level `i`'s two window positions: distinct slots of the order, at or
/// after the level's slice base.
pub open spec fn win_ok(jv: Seq<usize>, ix: Seq<usize>, m: int, i: int) -> bool {
    let a = ix[2 * i] as int;
    let b = ix[2 * i + 1] as int;
    let ji = jv[2 * i] as int;
    &&& a != b
    &&& ji <= a < m
    &&& ji <= b < m
}

/// Level `i`'s window sits on its anchor pair.
pub open spec fn win_home(jv: Seq<usize>, ix: Seq<usize>, i: int) -> bool {
    let a = ix[2 * i] as int;
    let b = ix[2 * i + 1] as int;
    let ji = jv[2 * i] as int;
    (a == ji && b == ji + 1) || (a == ji + 1 && b == ji)
}

/// The nodes with no incoming edge at all, in ascending order: the initial
/// ready pool.
pub open spec fn seed_pool_upto(gv: Seq<Seq<usize>>, v: int) -> Seq<usize>
    decreases v,
{
    if v <= 0 {
        Seq::empty()
    } else {
        seed_pool_upto(gv, v - 1) + if in_count(gv, Seq::<usize>::empty(), (v - 1) as usize)
            == 0 {
            seq![(v - 1) as usize]
        } else {
            Seq::<usize>::empty()
        }
    }
}

/// The whole peeling run as a function of the graph: from the current
/// order, anchors and pool, take one node (two where possible, recording a
/// level), relax their edges, and continue until the pool is dry.
pub open spec fn peel(
    gv: Seq<Seq<usize>>,
    l0: Seq<usize>,
    jv: Seq<usize>,
    pool: Seq<usize>,
    fuel: nat,
) -> (Seq<usize>, Seq<usize>)
    decreases fuel,
{
    if fuel == 0 || pool.len() == 0 {
        (l0, jv)
    } else {
        let a = pool.last();
        let l1 = l0.push(a);
        if pool.len() >= 2 {
            let b = pool[pool.len() - 2];
            let jv2 = jv + seq![(l1.len() - 1) as usize, l1.len() as usize];
            let l2 = l1.push(b);
            let pool1 = pool.drop_last().drop_last();
            let pool2 = pool1 + relax_pushes_upto(
                gv,
                l2,
                gv[a as int],
                gv[b as int],
                gv[a as int].len() as int,
            );
            let pool3 = pool2 + relax_pushes_upto(
                gv,
                l2,
                gv[b as int],
                Seq::<usize>::empty(),
                gv[b as int].len() as int,
            );
            peel(gv, l2, jv2, pool3, (fuel - 1) as nat)
        } else {
            let pool1 = pool.drop_last();
            let pool2 = pool1 + relax_pushes_upto(
                gv,
                l1,
                gv[a as int],
                Seq::<usize>::empty(),
                gv[a as int].len() as int,
            );
            peel(gv, l1, jv, pool2, (fuel - 1) as nat)
        }
    }
}

/// The base order and the anchor pairs that peeling `gv` produces.
pub open spec fn peel_result(gv: Seq<Seq<usize>>) -> (Seq<usize>, Seq<usize>) {
    peel(gv, Seq::empty(), Seq::empty(), seed_pool_upto(gv, gv.len() as int), gv.len())
}

/// The sub-process that enumerates the topological orders of one DAG: the
/// peeled base order, the per-level windows into it, and the per-level
/// orientation and parity bits, advanced by adjacent swaps and flips.
pub struct NRPR {
    n: usize,
    adj: bit_vec::BitVec,
    k: usize,
    pub l: Vec<usize>,
    j: Vec<usize>,
    ix: Vec<usize>,
    pub s: Vec<bool>,
    e: Vec<bool>,
}

impl NRPR {
    pub closed spec fn nodes_spec(&self) -> nat {
        self.n as nat
    }

    pub closed spec fn levels_spec(&self) -> nat {
        self.k as nat
    }

    pub closed spec fn order_view(&self) -> Seq<usize> {
        self.l@
    }

    pub closed spec fn sign_view(&self) -> Seq<bool> {
        self.s@
    }

    pub closed spec fn parity_view(&self) -> Seq<bool> {
        self.e@
    }

    pub closed spec fn anchor_view(&self) -> Seq<usize> {
        self.j@
    }

    pub closed spec fn window_view(&self) -> Seq<usize> {
        self.ix@
    }

    pub closed spec fn adj_view(&self) -> Seq<bool> {
        bits_of(self.adj)
    }

    /// The slice base of level `i`: its first anchor position.
    pub closed spec fn window_base(&self, i: int) -> int {
        self.j@[2 * i] as int
    }

    pub closed spec fn wf(&self) -> bool {
        let n = self.n as int;
        let k = self.k as int;
        let m = self.l@.len() as int;
        &&& m <= n
        &&& self.s@.len() == k + 1
        &&& self.e@.len() == k
        &&& self.j@.len() == 2 * k
        &&& self.ix@.len() == 2 * k
        &&& bits_of(self.adj).len() == n * n
        &&& n * n <= usize::MAX
        &&& nodes_below(self.l@, n)
        &&& self.l@.no_duplicates()
        &&& anchors_ok(self.j@, m)
        &&& forall|i: int| 0 <= i < k ==> win_ok(self.j@, #[trigger] self.ix@, m, i)
        &&& forall|i: int|
            0 <= i < k ==> !(win_home(self.j@, self.ix@, i) && #[trigger] self.s@[i]
                != self.e@[i])
    }

    /// Peel the graph into the base order and its paired levels: repeatedly
    /// take nodes whose remaining in-degree is zero, two at a time where
    /// possible, recording each simultaneous pair as one level.
    #[verifier::rlimit(100)]
    #[verifier::spinoff_prover]
    pub fn new<G: Graph>(g: &G) -> (r: NRPR)
        requires
            graph_wf(g.succ_view()),
            g.succ_view().len() * g.succ_view().len() <= usize::MAX,
        ensures
            r.wf(),
            r.nodes_spec() == g.succ_view().len(),
            r.order_view().no_duplicates(),
            nodes_below(r.order_view(), r.nodes_spec() as int),
            topo_ok(g.succ_view(), r.order_view()),
            acyclic(g.succ_view()) ==> r.order_view().len() == g.succ_view().len(),
            r.order_view() == peel_result(g.succ_view()).0,
            r.anchor_view() == peel_result(g.succ_view()).1,
            r.levels_spec() == peel_result(g.succ_view()).1.len() / 2,
            r.sp_view() == init_view(g.succ_view()),
            r.sign_view() == Seq::new(r.levels_spec() + 1, |i: int| true),
            r.parity_view() == Seq::new(r.levels_spec(), |i: int| true),
            r.window_view() == r.anchor_view(),
            forall|v: usize, w: usize|
                (v as int) < g.succ_view().len() && (w as int) < g.succ_view().len()
                    ==> #[trigger] adj_bit(r.adj_view(), r.nodes_spec() as usize, v, w)
                    == has_edge(g.succ_view(), v, w),
    {
        let ghost gv = g.succ_view();
        let n = g.size();
        let pairs = g.edges();
        proof {
            lemma_edge_seq_elem(gv, n as int);
        }

        let mut adjb = bv_new(n * n, false);
        let mut in_deg: Vec<usize> = Vec::new();
        let mut z: usize = 0;
        while z < n
            invariant
                z <= n,
                in_deg@.len() == z as int,
                forall|w: int| 0 <= w < z ==> (#[trigger] in_deg@[w]) == 0usize,
            decreases n - z,
        {
            in_deg.push(0);
            z = z + 1;
        }

        let mut idx: usize = 0;
        proof {
            assert(pairs@.take(0) =~= Seq::<(usize, usize)>::empty());
            assert forall|v: usize, w: usize|
                (v as int) < n as int && (w as int) < n as int implies #[trigger] adj_bit(
                bits_of(adjb),
                n,
                v,
                w,
            ) == pairs@.take(0).contains((v, w)) by {
                lemma_edge_pos_bound(n as int, v as int, w as int);
            }
        }
        while idx < pairs.len()
            invariant
                idx <= pairs@.len(),
                pairs@ == edge_seq(gv),
                gv == g.succ_view(),
                graph_wf(gv),
                n as int == gv.len(),
                n as int * n as int <= usize::MAX,
                in_deg@.len() == n as int,
                forall|t: int| 0 <= t < pairs@.len() ==> {
                    let p = #[trigger] pairs@[t];
                    (p.0 as int) < n as int && g.succ_view()[p.0 as int].contains(p.1)
                },
                forall|w: usize|
                    (w as int) < n as int ==> (#[trigger] in_deg@[w as int]) as nat == tgt(
                        pairs@.take(idx as int),
                        w,
                    ),
                bits_of(adjb).len() == n as int * n as int,
                forall|v: usize, w: usize|
                    (v as int) < n as int && (w as int) < n as int ==> #[trigger] adj_bit(
                        bits_of(adjb),
                        n,
                        v,
                        w,
                    ) == pairs@.take(idx as int).contains((v, w)),
            decreases pairs@.len() - idx,
        {
            let (v, w) = pairs[idx];
            proof {
                assert(pairs@[idx as int].0 == v && pairs@[idx as int].1 == w);
                assert((v as int) < n as int);
                assert(gv[v as int].contains(w));
                let ti = choose|ti: int| 0 <= ti < gv[v as int].len() && gv[v as int][ti] == w;
                assert((w as int) < n as int);
            }
            let ghost bits0 = bits_of(adjb);
            let pos = edge_pos(n, v, w);
            bv_set(&mut adjb, pos, true);
            let d = in_deg[w];
            proof {
                lemma_tgt_le_len(pairs@.take(idx as int), w);
            }
            in_deg.set(w, d + 1);
            proof {
                assert forall|w2: usize| (w2 as int) < n as int implies (#[trigger] in_deg@[
                    w2 as int]) as nat == tgt(pairs@.take(idx + 1), w2) by {
                    lemma_tgt_take_step(pairs@, w2, idx as int);
                }
                assert(pairs@.take(idx + 1) =~= pairs@.take(idx as int).push(pairs@[idx as int]));
                assert forall|v2: usize, w2: usize|
                    (v2 as int) < n as int && (w2 as int) < n as int implies #[trigger] adj_bit(
                    bits_of(adjb),
                    n,
                    v2,
                    w2,
                ) == pairs@.take(idx + 1).contains((v2, w2)) by {
                    lemma_push_contains(pairs@.take(idx as int), pairs@[idx as int], (v2, w2));
                    lemma_edge_pos_bound(n as int, v2 as int, w2 as int);
                    if v2 == v && w2 == w {
                        assert(adj_bit(bits_of(adjb), n, v2, w2));
                    } else {
                        if n as int * v2 as int + w2 as int == n as int * v as int + w as int {
                            lemma_edge_pos_inj(
                                n as int,
                                v as int,
                                w as int,
                                v2 as int,
                                w2 as int,
                            );
                        }
                        assert(adj_bit(bits_of(adjb), n, v2, w2) == adj_bit(bits0, n, v2, w2));
                    }
                }
            }
            idx = idx + 1;
        }
        proof {
            assert(pairs@.take(pairs@.len() as int) =~= pairs@);
            assert forall|w: usize| (w as int) < n as int implies (#[trigger] in_deg@[w as int])
                as nat == in_count(gv, Seq::<usize>::empty(), w) by {
                lemma_tgt_edge_seq(gv, w, n as int);
            }
            assert forall|v: usize, w: usize|
                (v as int) < n as int && (w as int) < n as int implies #[trigger] adj_bit(
                bits_of(adjb),
                n,
                v,
                w,
            ) == has_edge(gv, v, w) by {
                lemma_edge_seq_has_edge(gv, v, w);
            }
        }

        let mut min: Vec<usize> = Vec::new();
        let mut v0: usize = 0;
        proof {
            assert(min@ =~= seed_pool_upto(gv, 0));
        }
        while v0 < n
            invariant
                v0 <= n,
                n as int == gv.len(),
                in_deg@.len() == n as int,
                min@ == seed_pool_upto(gv, v0 as int),
                forall|w: usize|
                    (w as int) < n as int ==> (#[trigger] in_deg@[w as int]) as nat == in_count(
                        gv,
                        Seq::<usize>::empty(),
                        w,
                    ),
                min@.no_duplicates(),
                nodes_below(min@, n as int),
                forall|t: int| 0 <= t < min@.len() ==> ((#[trigger] min@[t]) as int) < v0 as int,
                forall|t: int|
                    0 <= t < min@.len() ==> in_deg@[(#[trigger] min@[t]) as int] == 0usize,
                forall|w: usize|
                    (w as int) < v0 as int && !min@.contains(w) ==> in_deg@[w as int] != 0usize,
            decreases n - v0,
        {
            let ghost min_pre = min@;
            if in_deg[v0] == 0 {
                proof {
                    if min@.contains(v0) {
                        let t = choose|t: int| 0 <= t < min@.len() && min@[t] == v0;
                    }
                    lemma_push_no_dup(min@, v0);
                }
                min.push(v0);
            }
            proof {
                assert forall|w: usize|
                    (w as int) < v0 as int + 1 && !min@.contains(w) implies in_deg@[w as int]
                    != 0usize by {
                    if in_deg@[v0 as int] == 0usize {
                        lemma_push_contains(min_pre, v0, w);
                    }
                }
                if in_deg@[v0 as int] == 0usize {
                    assert(min@ =~= min_pre + seq![v0]);
                    assert(min@ =~= seed_pool_upto(gv, v0 as int + 1));
                } else {
                    assert(min@ =~= seed_pool_upto(gv, v0 as int + 1));
                }
            }
            v0 = v0 + 1;
        }

        let mut l0: Vec<usize> = Vec::new();
        let mut jv: Vec<usize> = Vec::new();
        let ghost mut fuelm: nat = n as nat;
        proof {
            assert(l0@ + min@ =~= min@);
            assert(l0@ =~= Seq::<usize>::empty());
            assert(jv@ =~= Seq::<usize>::empty());
            assert(min@ == seed_pool_upto(gv, gv.len() as int));
        }
        while min.len() > 0
            invariant
                gv == g.succ_view(),
                graph_wf(gv),
                n as int == gv.len(),
                n as int * n as int <= usize::MAX,
                in_deg@.len() == n as int,
                nodes_below(l0@, n as int),
                nodes_below(min@, n as int),
                (l0@ + min@).no_duplicates(),
                forall|w: usize|
                    (w as int) < n as int ==> (#[trigger] in_deg@[w as int]) as nat == in_count(
                        gv,
                        l0@,
                        w,
                    ),
                forall|t: int|
                    0 <= t < min@.len() ==> in_deg@[(#[trigger] min@[t]) as int] == 0usize,
                forall|w: usize|
                    (w as int) < n as int && !l0@.contains(w) && !min@.contains(w)
                        ==> in_deg@[w as int] != 0usize,
                topo_ok(gv, l0@),
                anchors_ok(jv@, l0@.len() as int),
                fuelm + l0@.len() >= n as nat,
                peel(gv, l0@, jv@, min@, fuelm) == peel_result(gv),
            decreases n as int - l0@.len(),
        {
            proof {
                lemma_concat_no_dup_parts(l0@, min@);
                lemma_no_dup_below_len(l0@ + min@, n as int);
            }
            let ghost l0_top = l0@;
            let ghost jv_top = jv@;
            let ghost min_top = min@;
            let ghost fuel_top = fuelm;
            let a = min.pop().unwrap();
            proof {
                lemma_move_pop_push(l0_top, min_top);
                assert(in_count(gv, l0_top, a) == 0);
                assert forall|v: usize| #[trigger] has_edge(gv, v, a) implies l0_top.contains(
                    v,
                ) by {
                    lemma_ic_zero_sources(gv, l0_top, a, n as int, v);
                }
                lemma_topo_push(gv, l0_top, a);
            }
            l0.push(a);
            proof {
                assert forall|w: usize| (w as int) < n as int implies in_count(gv, l0_top, w)
                    == in_count(gv, l0@, w) + occ(gv[a as int], w) by {
                    lemma_ic_push(gv, l0_top, a, w, n as int);
                }
            }
            let ghost l0_a = l0@;

            let mut bnode: usize = 0;
            let mut has_b = false;
            if min.len() > 0 {
                let ghost min_a = min@;
                let b = min.pop().unwrap();
                proof {
                    assert(in_deg@[b as int] == 0usize);
                    assert(in_count(gv, l0_top, b) == 0);
                    lemma_move_pop_push(l0_a, min_a);
                    assert forall|v: usize| #[trigger] has_edge(gv, v, b) implies l0_a.contains(
                        v,
                    ) by {
                        lemma_ic_zero_sources(gv, l0_top, b, n as int, v);
                        lemma_push_contains(l0_top, a, v);
                    }
                    lemma_topo_push(gv, l0_a, b);
                }
                let i = l0.len();
                let ghost jv_old = jv@;
                jv.push(i - 1);
                jv.push(i);
                l0.push(b);
                bnode = b;
                has_b = true;
                proof {
                    assert forall|w: usize| (w as int) < n as int implies in_count(gv, l0_a, w)
                        == in_count(gv, l0@, w) + occ(gv[b as int], w) by {
                        lemma_ic_push(gv, l0_a, b, w, n as int);
                    }
                    assert forall|t: int| 0 < t < jv@.len() implies (jv@[t - 1] as int) < ((
                    #[trigger] jv@[t]) as int) by {
                        if t < jv_old.len() {
                            assert(jv@[t] == jv_old[t] && jv@[t - 1] == jv_old[t - 1]);
                        } else if t == jv_old.len() {
                            assert(jv@[t] == (i - 1) as usize);
                            if t > 0 {
                                assert((jv_old[t - 1] as int) < l0_top.len() + 1);
                            }
                        } else {
                            assert(jv@[t] == i && jv@[t - 1] == (i - 1) as usize);
                        }
                    }
                    assert(anchors_ok(jv@, l0@.len() as int));
                }
            }
            let ghost l0_cur = l0@;
            let ghost pend_b: Seq<usize> = if has_b {
                gv[bnode as int]
            } else {
                Seq::<usize>::empty()
            };
            proof {
                // after both pushes the counts still carry each pending row
                assert forall|w: usize| (w as int) < n as int implies (#[trigger] in_deg@[
                w as int]) as nat == in_count(gv, l0_cur, w) + occ(gv[a as int], w) + occ(
                    pend_b,
                    w,
                ) by {}
                // no successor of a is already placed
                assert forall|w: usize| #[trigger] has_edge(gv, a, w) implies !l0_cur.contains(
                    w,
                ) by {
                    lemma_placed_target_unplaced(gv, l0_top, l0_cur, a, bnode, has_b, a, w);
                }
                // nodes neither placed nor pooled were in neither place at
                // the loop top, so their remaining in-degree is positive
                assert forall|w: usize|
                    (w as int) < n as int && !l0_cur.contains(w) && !min@.contains(
                        w,
                    ) implies in_deg@[w as int] != 0usize by {
                    assert(!l0_top.contains(w)) by {
                        lemma_push_contains(l0_top, a, w);
                        if has_b {
                            lemma_push_contains(l0_top.push(a), bnode, w);
                        }
                    }
                    assert(!min_top.contains(w)) by {
                        if min_top.contains(w) {
                            let idx = choose|idx: int|
                                0 <= idx < min_top.len() && min_top[idx] == w;
                            assert(a == min_top[min_top.len() - 1]);
                            if has_b {
                                assert(bnode == min_top[min_top.len() - 2]);
                                assert(min@.len() == min_top.len() - 2);
                            } else {
                                assert(min@.len() == min_top.len() - 1);
                            }
                            if idx < min@.len() {
                                assert(min@[idx] == min_top[idx]);
                                assert(min@.contains(w));
                            } else {
                                assert(w == a || (has_b && w == bnode));
                                assert(l0_cur.contains(w)) by {
                                    lemma_push_contains(l0_top, a, w);
                                    if has_b {
                                        lemma_push_contains(l0_top.push(a), bnode, w);
                                    }
                                }
                            }
                        }
                    }
                }
            }
            relax(g, &mut in_deg, &mut min, a, Ghost(l0_cur), Ghost(pend_b));
            if has_b {
                proof {
                    assert forall|w: usize| #[trigger] has_edge(gv, bnode, w) implies !l0_cur
                        .contains(w) by {
                        lemma_placed_target_unplaced(
                            gv,
                            l0_top,
                            l0_cur,
                            a,
                            bnode,
                            has_b,
                            bnode,
                            w,
                        );
                    }
                }
                relax(g, &mut in_deg, &mut min, bnode, Ghost(l0_cur), Ghost(Seq::<usize>::empty()));
            }
            proof {
                // one loop iteration is exactly one step of the peel model
                assert(fuel_top >= 1);
                if has_b {
                    let l1 = l0_top.push(a);
                    let l2 = l1.push(bnode);
                    assert(l0@ =~= l2);
                    assert(jv@ =~= jv_top + seq![(l1.len() - 1) as usize, l1.len() as usize]);
                    let pool1 = min_top.drop_last().drop_last();
                    let pool2 = pool1 + relax_pushes_upto(
                        gv,
                        l2,
                        gv[a as int],
                        gv[bnode as int],
                        gv[a as int].len() as int,
                    );
                    let pool3 = pool2 + relax_pushes_upto(
                        gv,
                        l2,
                        gv[bnode as int],
                        Seq::<usize>::empty(),
                        gv[bnode as int].len() as int,
                    );
                    assert(min@ =~= pool3);
                    assert(peel(gv, l0_top, jv_top, min_top, fuel_top) == peel(
                        gv,
                        l0@,
                        jv@,
                        min@,
                        (fuel_top - 1) as nat,
                    ));
                } else {
                    let l1 = l0_top.push(a);
                    assert(l0@ =~= l1);
                    assert(jv@ =~= jv_top);
                    let pool1 = min_top.drop_last();
                    let pool2 = pool1 + relax_pushes_upto(
                        gv,
                        l1,
                        gv[a as int],
                        Seq::<usize>::empty(),
                        gv[a as int].len() as int,
                    );
                    assert(min@ =~= pool2);
                    assert(peel(gv, l0_top, jv_top, min_top, fuel_top) == peel(
                        gv,
                        l0@,
                        jv@,
                        min@,
                        (fuel_top - 1) as nat,
                    ));
                }
                fuelm = (fuel_top - 1) as nat;
            }
        }

        proof {
            assert(l0@ + min@ =~= l0@);
            lemma_no_dup_below_len(l0@, n as int);
            // the pool is empty and every unplaced node's remaining
            // in-degree is positive, so an unplaced node would refute
            // acyclicity
            if acyclic(gv) && l0@.len() < n as int {
                assert forall|w: usize|
                    (w as int) < n as int && !l0@.contains(w) implies in_count(gv, l0@, w)
                    > 0 by {
                    assert(in_deg@[w as int] != 0usize);
                }
                lemma_stuck_not_acyclic(gv, l0@);
            }
        }
        proof {
            assert(peel(gv, l0@, jv@, min@, fuelm) == (l0@, jv@));
            assert(l0@ == peel_result(gv).0 && jv@ == peel_result(gv).1);
        }
        let two_k = jv.len();
        let k = two_k / 2;
        let ix = copy_usize_vec(&jv);
        let mut s: Vec<bool> = Vec::new();
        let mut z2: usize = 0;
        while z2 < k + 1
            invariant
                z2 <= k + 1,
                k < usize::MAX,
                s@.len() == z2 as int,
                forall|t: int| 0 <= t < z2 ==> (#[trigger] s@[t]) == true,
            decreases k + 1 - z2,
        {
            s.push(true);
            z2 = z2 + 1;
        }
        let mut e: Vec<bool> = Vec::new();
        let mut z3: usize = 0;
        while z3 < k
            invariant
                z3 <= k,
                e@.len() == z3 as int,
                forall|t: int| 0 <= t < z3 ==> (#[trigger] e@[t]) == true,
            decreases k - z3,
        {
            e.push(true);
            z3 = z3 + 1;
        }
        let r = NRPR { n, adj: adjb, k, l: l0, j: jv, ix, s, e };
        proof {
            assert(r.s@ =~= Seq::new(r.k as nat + 1, |i: int| true));
            assert(r.e@ =~= Seq::new(r.k as nat, |i: int| true));
            assert forall|i: int| 0 <= i < r.k as int implies win_ok(
                r.j@,
                #[trigger] r.ix@,
                r.l@.len() as int,
                i,
            ) by {
                assert(r.j@[2 * i + 1] as int == r.j@[2 * i] + 1);
            }
            let iv = init_view(gv);
            assert(bits_of(r.adj) =~= iv.adj) by {
                assert forall|pos: int|
                    0 <= pos < n as int * n as int implies bits_of(r.adj)[pos] == iv.adj[
                    pos] by {
                    lemma_pos_div_mod(pos, n as int);
                    let v2 = (pos / n as int) as usize;
                    let w2 = (pos % n as int) as usize;
                    assert(n as int * v2 as int + w2 as int == pos);
                    assert(adj_bit(bits_of(r.adj), n, v2, w2) == has_edge(gv, v2, w2));
                }
            }
            assert(r.sp_view() =~= iv);
        }
        r
    }
}

/// After placing `src` (and possibly a partner), no successor of `src`
/// stands in the placed prefix yet.
pub(crate) proof fn lemma_placed_target_unplaced(
    gv: Seq<Seq<usize>>,
    l0_top: Seq<usize>,
    l0_cur: Seq<usize>,
    a: usize,
    b: usize,
    has_b: bool,
    src: usize,
    w: usize,
)
    requires
        graph_wf(gv),
        gv.len() <= usize::MAX,
        topo_ok(gv, l0_top),
        l0_cur == if has_b {
            l0_top.push(a).push(b)
        } else {
            l0_top.push(a)
        },
        !l0_top.contains(a),
        has_b ==> !l0_top.push(a).contains(b),
        in_count(gv, l0_top, a) == 0,
        has_b ==> in_count(gv, l0_top, b) == 0,
        src == a || (has_b && src == b),
        has_edge(gv, src, w),
    ensures
        !l0_cur.contains(w),
{
    if !l0_cur.contains(w) {
    } else if l0_top.contains(w) {
        // the source would have to stand in the shorter prefix already
        let p = choose|p: int| 0 <= p < l0_top.len() && l0_top[p] == w;
        assert(has_edge(gv, src, l0_top[p]));
        let q = choose|q: int| 0 <= q < p && l0_top[q] == src;
        if src == a {
            assert(l0_top.contains(a));
        } else {
            assert(l0_top.push(a).contains(b)) by {
                lemma_push_contains(l0_top, a, b);
            }
        }
    } else if w == a {
        // a pooled node has every predecessor placed, so none pending
        lemma_ic_zero_sources(gv, l0_top, a, gv.len() as int, src);
        if src == a {
            assert(l0_top.contains(a));
        } else {
            assert(l0_top.push(a).contains(b)) by {
                lemma_push_contains(l0_top, a, b);
            }
        }
    } else {
        assert(has_b && w == b) by {
            lemma_push_contains(l0_top, a, w);
            if has_b {
                lemma_push_contains(l0_top.push(a), b, w);
            }
        }
        lemma_ic_zero_sources(gv, l0_top, b, gv.len() as int, src);
        if src == a {
            assert(l0_top.contains(a));
        } else {
            assert(l0_top.push(a).contains(b)) by {
                lemma_push_contains(l0_top, a, b);
            }
        }
    }
}

/// Jointly duplicate-free sequences are each duplicate-free, and share no
/// element.
pub(crate) proof fn lemma_concat_no_dup_parts(s1: Seq<usize>, s2: Seq<usize>)
    requires
        (s1 + s2).no_duplicates(),
    ensures
        s1.no_duplicates(),
        s2.no_duplicates(),
        forall|x: usize| s1.contains(x) ==> !s2.contains(x),
{
    let c = s1 + s2;
    assert forall|i1: int, i2: int|
        0 <= i1 < s1.len() && 0 <= i2 < s1.len() && i1 != i2 implies s1[i1] != s1[i2] by {
        assert(c[i1] == s1[i1] && c[i2] == s1[i2]);
    }
    assert forall|i1: int, i2: int|
        0 <= i1 < s2.len() && 0 <= i2 < s2.len() && i1 != i2 implies s2[i1] != s2[i2] by {
        assert(c[s1.len() + i1] == s2[i1] && c[s1.len() + i2] == s2[i2]);
    }
    assert forall|x: usize| s1.contains(x) implies !s2.contains(x) by {
        if s1.contains(x) && s2.contains(x) {
            let i1 = choose|i: int| 0 <= i < s1.len() && s1[i] == x;
            let i2 = choose|i: int| 0 <= i < s2.len() && s2[i] == x;
            assert(c[i1] == x && c[s1.len() + i2] == x);
        }
    }
}

/// Whether consuming the pending edge `row[t]` leaves its target with no
/// pending edge at all: the remaining in-degree against `placed` and the
/// edges of `row` past `t` and of the partner row `other` are all gone.
pub open spec fn zero_after(
    gv: Seq<Seq<usize>>,
    placed: Seq<usize>,
    row: Seq<usize>,
    other: Seq<usize>,
    t: int,
) -> bool {
    in_count(gv, placed, row[t]) + occ(other, row[t]) + occ(row, row[t]) == occ(
        row.take(t + 1),
        row[t],
    )
}

/// The nodes pooled while relaxing `row[..t]`, in relaxation order.
pub open spec fn relax_pushes_upto(
    gv: Seq<Seq<usize>>,
    placed: Seq<usize>,
    row: Seq<usize>,
    other: Seq<usize>,
    t: int,
) -> Seq<usize>
    decreases t,
{
    if t <= 0 {
        Seq::empty()
    } else {
        relax_pushes_upto(gv, placed, row, other, t - 1) + if zero_after(
            gv,
            placed,
            row,
            other,
            t - 1,
        ) {
            seq![row[t - 1]]
        } else {
            Seq::empty()
        }
    }
}

/// Walk `src`'s successor list, lowering each target's remaining in-degree
/// and pooling every target that reaches zero.
pub(crate) fn relax<G: Graph>(
    g: &G,
    in_deg: &mut Vec<usize>,
    min: &mut Vec<usize>,
    src: usize,
    Ghost(placed): Ghost<Seq<usize>>,
    Ghost(other): Ghost<Seq<usize>>,
)
    requires
        graph_wf(g.succ_view()),
        (src as int) < g.succ_view().len(),
        old(in_deg)@.len() == g.succ_view().len(),
        forall|w: usize|
            (w as int) < g.succ_view().len() ==> (#[trigger] old(in_deg)@[w as int]) as nat
                == in_count(g.succ_view(), placed, w) + occ(g.succ_view()[src as int], w) + occ(
                other,
                w,
            ),
        forall|t: int|
            0 <= t < old(min)@.len() ==> old(in_deg)@[(#[trigger] old(min)@[t]) as int] == 0usize,
        (placed + old(min)@).no_duplicates(),
        nodes_below(old(min)@, g.succ_view().len() as int),
        nodes_below(placed, g.succ_view().len() as int),
        forall|w: usize| #[trigger] has_edge(g.succ_view(), src, w) ==> !placed.contains(w),
        forall|w: usize|
            (w as int) < g.succ_view().len() && !placed.contains(w) && !old(min)@.contains(w)
                ==> old(in_deg)@[w as int] != 0usize,
    ensures
        final(in_deg)@.len() == g.succ_view().len(),
        forall|w: usize|
            (w as int) < g.succ_view().len() ==> (#[trigger] final(in_deg)@[w as int]) as nat
                == in_count(g.succ_view(), placed, w) + occ(other, w),
        forall|t: int|
            0 <= t < final(min)@.len() ==> final(in_deg)@[(#[trigger] final(min)@[t]) as int]
                == 0usize,
        (placed + final(min)@).no_duplicates(),
        nodes_below(final(min)@, g.succ_view().len() as int),
        forall|w: usize|
            (w as int) < g.succ_view().len() && !placed.contains(w) && !final(min)@.contains(w)
                ==> final(in_deg)@[w as int] != 0usize,
        final(min)@ == old(min)@ + relax_pushes_upto(
            g.succ_view(),
            placed,
            g.succ_view()[src as int],
            other,
            g.succ_view()[src as int].len() as int,
        ),
{
    let ghost gv = g.succ_view();
    let ghost min0 = min@;
    proof {
        assert(min@ =~= min0 + relax_pushes_upto(gv, placed, gv[src as int], other, 0));
    }
    let row = g.successors(src);
    let mut t: usize = 0;
    while t < row.len()
        invariant
            gv == g.succ_view(),
            graph_wf(gv),
            (src as int) < gv.len(),
            row@ == gv[src as int],
            t <= row@.len(),
            in_deg@.len() == gv.len(),
            forall|w: usize|
                (w as int) < gv.len() ==> (#[trigger] in_deg@[w as int]) as nat + occ(
                    row@.take(t as int),
                    w,
                ) == in_count(gv, placed, w) + occ(row@, w) + occ(other, w),
            forall|tt: int|
                0 <= tt < min@.len() ==> in_deg@[(#[trigger] min@[tt]) as int] == 0usize,
            (placed + min@).no_duplicates(),
            nodes_below(min@, gv.len() as int),
            nodes_below(placed, gv.len() as int),
            forall|w: usize| #[trigger] has_edge(gv, src, w) ==> !placed.contains(w),
            forall|w: usize|
                (w as int) < gv.len() && !placed.contains(w) && !min@.contains(w)
                    ==> in_deg@[w as int] != 0usize,
            min0 == old(min)@,
            min@ == min0 + relax_pushes_upto(gv, placed, row@, other, t as int),
        decreases row@.len() - t,
    {
        let w0 = row[t];
        proof {
            assert(gv[src as int][t as int] == w0);
            assert((w0 as int) < gv.len());
            lemma_occ_take_step(row@, w0, t as int);
            lemma_occ_take_mono(row@, w0, t + 1);
            assert(in_deg@[w0 as int] >= 1);
        }
        let d = in_deg[w0];
        in_deg.set(w0, d - 1);
        proof {
            assert forall|w: usize| (w as int) < gv.len() implies (#[trigger] in_deg@[w as int])
                as nat + occ(row@.take(t + 1), w) == in_count(gv, placed, w) + occ(row@, w) + occ(
                other,
                w,
            ) by {
                lemma_occ_take_step(row@, w, t as int);
            }
            assert forall|tt: int| 0 <= tt < min@.len() implies in_deg@[(#[trigger] min@[
            tt]) as int] == 0usize by {
                assert(min@[tt] != w0);
            }
        }
        if d - 1 == 0 {
            proof {
                assert(!min@.contains(w0)) by {
                    if min@.contains(w0) {
                        let tt = choose|tt: int| 0 <= tt < min@.len() && min@[tt] == w0;
                    }
                }
                assert(has_edge(gv, src, w0)) by {
                    assert(gv[src as int][t as int] == w0);
                }
                assert(!placed.contains(w0));
                lemma_concat_contains(placed, min@, w0);
                lemma_push_no_dup(placed + min@, w0);
                assert((placed + min@).push(w0) =~= placed + min@.push(w0));
            }
            let ghost min_pre = min@;
            min.push(w0);
            proof {
                assert forall|w: usize|
                    (w as int) < gv.len() && !placed.contains(w) && !min@.contains(
                        w,
                    ) implies in_deg@[w as int] != 0usize by {
                    lemma_push_contains(min_pre, w0, w);
                }
            }
        }
        proof {
            lemma_occ_take_step(row@, w0, t as int);
            if zero_after(gv, placed, row@, other, t as int) {
                assert(in_deg@[w0 as int] == 0usize);
                assert(min@ =~= (min0 + relax_pushes_upto(gv, placed, row@, other, t as int))
                    + seq![w0]);
                assert(min@ =~= min0 + relax_pushes_upto(gv, placed, row@, other, t + 1));
            } else {
                assert(in_deg@[w0 as int] != 0usize);
                assert(relax_pushes_upto(gv, placed, row@, other, t + 1) =~= relax_pushes_upto(
                    gv,
                    placed,
                    row@,
                    other,
                    t as int,
                ));
                assert(min@ =~= min0 + relax_pushes_upto(gv, placed, row@, other, t + 1));
            }
        }
        t = t + 1;
    }
    proof {
        assert(row@.take(row@.len() as int) =~= row@);
    }
}

impl GLPSubProc for NRPR {
    type Delta = Move;

    type V = NrprView;

    closed spec fn sp_size(&self) -> nat {
        self.k as nat + 1
    }

    closed spec fn sp_inv(&self) -> bool {
        self.wf()
    }

    closed spec fn sp_view(&self) -> NrprView {
        NrprView {
            n: self.n as nat,
            k: self.k as nat,
            adj: bits_of(self.adj),
            l: self.l@,
            j: self.j@,
            ix: self.ix@,
            s: self.s@,
            e: self.e@,
        }
    }

    open spec fn sp_answer(&self, i: int) -> bool {
        nrpr_step(self.sp_view(), i).1
    }

    open spec fn sp_delta(&self, i: int) -> Move {
        nrpr_step(self.sp_view(), i).2
    }

    open spec fn sp_next(&self, i: int) -> NrprView {
        nrpr_step(self.sp_view(), i).0
    }

    closed spec fn sp_fixed(&self, pre: &Self) -> bool {
        &&& self.n == pre.n
        &&& self.k == pre.k
        &&& bits_of(self.adj) == bits_of(pre.adj)
        &&& self.j@ == pre.j@
        &&& self.l@.len() == pre.l@.len()
        &&& self.l@.to_multiset() == pre.l@.to_multiset()
    }

    fn size(&self) -> (r: usize)
        ensures
            r as nat == self.levels_spec() + 1,
    {
        let twok = self.ix.len();
        proof {
            assert(twok as int == 2 * self.k as int);
        }
        self.k + 1
    }

    /// Advance level `i` by one move: pick it from the decision table,
    /// apply the swap or flip (a flip of an inner level also swaps its
    /// parent's window: the carry), and report whether the level's local
    /// cycle has wrapped.
    fn execute(&mut self, i: usize) -> (r: (bool, Move))
        ensures
            r.1 matches Move::Swap(a, b) ==> (a as int) < old(self).order_view().len() && (
            b as int) < old(self).order_view().len() && a != b && final(self).order_view() == old(
                self,
            ).order_view().update(a as int, old(self).order_view()[b as int]).update(
                b as int,
                old(self).order_view()[a as int],
            ),
            r.1 is FlipSign ==> final(self).order_view() == old(self).order_view(),
            r.1 is Noop ==> final(self).order_view() == old(self).order_view() && old(
                self,
            ).levels_spec() == 0,
            (i as nat) == old(self).levels_spec() ==> r.0 == false && final(self).sign_view()
                == old(self).sign_view().update(i as int, false),
            (i as nat) < old(self).levels_spec() ==> (r.0 == false <==> (win_home(
                final(self).anchor_view(),
                final(self).window_view(),
                i as int,
            ) && final(self).sign_view()[i as int] != old(self).parity_view()[i as int])),
            (i as nat) < old(self).levels_spec() ==> final(self).parity_view() == if r.0 {
                old(self).parity_view()
            } else {
                old(self).parity_view().update(i as int, !old(self).parity_view()[i as int])
            },
            final(self).nodes_spec() == old(self).nodes_spec(),
            final(self).levels_spec() == old(self).levels_spec(),
            final(self).anchor_view() == old(self).anchor_view(),
            final(self).adj_view() == old(self).adj_view(),
            final(self).order_view().len() == old(self).order_view().len(),
            final(self).order_view().to_multiset() == old(self).order_view().to_multiset(),
            (i as nat) < old(self).levels_spec() ==> ({
                let mv0 = level_move(old(self).sp_view(), i as int);
                let ji = old(self).window_base(i as int);
                &&& (mv0 matches Move::Swap(ra, rb) ==> r.1 == Move::Swap(
                    (ji + ra) as usize,
                    (ji + rb) as usize,
                ) && final(self).sign_view() == old(self).sign_view() && final(self).window_view()
                    == (if old(self).window_view()[2 * i] == (ji + ra) as usize {
                    old(self).window_view().update(2 * i, (ji + rb) as usize)
                } else {
                    old(self).window_view().update(2 * i + 1, (ji + rb) as usize)
                }))
                &&& (mv0 is FlipSign && i > 0 ==> r.1 == Move::Swap(
                    old(self).window_view()[2 * i - 1],
                    old(self).window_view()[2 * i - 2],
                ) && final(self).sign_view() == old(self).sign_view().update(
                    i as int,
                    !old(self).sign_view()[i as int],
                ) && final(self).window_view() == old(self).window_view().update(
                    2 * i - 2,
                    old(self).window_view()[2 * i - 1],
                ).update(2 * i - 1, old(self).window_view()[2 * i - 2]))
                &&& (mv0 is FlipSign && i == 0 ==> r.1 == Move::FlipSign
                    && final(self).sign_view() == old(self).sign_view().update(
                    i as int,
                    !old(self).sign_view()[i as int],
                ) && final(self).window_view() == old(self).window_view())
            }),
            (i as nat) == old(self).levels_spec() && old(self).levels_spec() > 0 ==> r.1
                == Move::Swap(
                old(self).window_view()[2 * i - 1],
                old(self).window_view()[2 * i - 2],
            ) && final(self).window_view() == old(self).window_view().update(
                2 * i - 2,
                old(self).window_view()[2 * i - 1],
            ).update(2 * i - 1, old(self).window_view()[2 * i - 2]) && final(self).parity_view()
                == old(self).parity_view(),
            (i as nat) == old(self).levels_spec() && old(self).levels_spec() == 0 ==> r.1
                == Move::Noop && final(self).window_view() == old(self).window_view()
                && final(self).parity_view() == old(self).parity_view(),
    {
        let ghost pre = *self;
        let r: (bool, Move);
        if i == self.k {
            r = self.execute_top();
        } else {
            r = self.execute_level(i);
        }
        proof {
            assert(r.0 == nrpr_step(pre.sp_view(), i as int).1);
            assert(r.1 == nrpr_step(pre.sp_view(), i as int).2);
            assert(self.sp_view() == nrpr_step(pre.sp_view(), i as int).0);
        }
        r
    }
}

impl NRPR {
    /// The single visit to the sentinel level above the interior ones:
    /// swap the outermost level's window and park the top orientation bit,
    /// whereafter the threaded strategy ends the whole enumeration.
    #[verifier::rlimit(100)]
    #[verifier::spinoff_prover]
    fn execute_top(&mut self) -> (r: (bool, Move))
        requires
            old(self).wf(),
        ensures
            final(self).wf(),
            final(self).n == old(self).n,
            final(self).k == old(self).k,
            final(self).adj == old(self).adj,
            final(self).j@ == old(self).j@,
            final(self).l@.len() == old(self).l@.len(),
            final(self).l@.to_multiset() == old(self).l@.to_multiset(),
            r.0 == false,
            final(self).s@ == old(self).s@.update(old(self).k as int, false),
            final(self).e@ == old(self).e@,
            r.1 matches Move::Swap(a, b) ==> (a as int) < old(self).l@.len()
                && (b as int) < old(self).l@.len() && a != b
                && final(self).l@ == old(self).l@.update(a as int, old(self).l@[b as int]).update(
                b as int,
                old(self).l@[a as int],
            ),
            r.1 is Noop ==> final(self).l@ == old(self).l@ && old(self).k == 0,
            !(r.1 is FlipSign),
            old(self).k > 0 ==> r.1 == Move::Swap(
                old(self).ix@[2 * old(self).k - 1],
                old(self).ix@[2 * old(self).k - 2],
            ) && final(self).ix@ == old(self).ix@.update(
                2 * old(self).k - 2,
                old(self).ix@[2 * old(self).k - 1],
            ).update(2 * old(self).k - 1, old(self).ix@[2 * old(self).k - 2]),
            old(self).k == 0 ==> r.1 == Move::Noop && final(self).ix@ == old(self).ix@,
            ({
                let stepped = nrpr_step(old(self).sp_view(), old(self).k as int);
                final(self).sp_view() == stepped.0 && r.0 == stepped.1 && r.1 == stepped.2
            }),
    {
        let ghost pre = *self;
        let twok = self.ix.len();
        let m = self.l.len();
        proof {
            assert(twok as int == 2 * self.k as int);
        }
        let mv: Move;
        if self.k > 0 {
            let p = 2 * self.k - 2;
            let x = self.ix[p];
            let y = self.ix[p + 1];
            proof {
                assert(win_ok(self.j@, self.ix@, m as int, self.k as int - 1));
                lemma_swap_props(self.l@, x as int, y as int, self.n as int);
            }
            vec_swap(&mut self.l, x, y);
            vec_swap(&mut self.ix, p, p + 1);
            mv = Move::Swap(self.ix[p], self.ix[p + 1]);
        } else {
            mv = Move::Noop;
        }
        self.s.set(self.k, false);
        proof {
            assert forall|t: int|
                0 <= t < pre.k as int && t != pre.k as int implies level_frame(
                pre,
                *self,
                t,
            ) by {
                assert(self.s@[t] == pre.s@[t] && self.e@[t] == pre.e@[t]);
            }
            lemma_wf_preserved(pre, *self, pre.k as int, m as int);
            let stepped = nrpr_step(pre.sp_view(), pre.k as int);
            assert(self.l@ =~= stepped.0.l);
            assert(self.ix@ =~= stepped.0.ix);
            assert(self.s@ =~= stepped.0.s);
            assert(self.e@ =~= stepped.0.e);
            assert(self.sp_view() =~= stepped.0);
            assert(mv == stepped.2);
        }
        (false, mv)
    }

    /// Advance interior level `i`: pick its move from the decision table
    /// and apply it; a flip of an inner level also swaps its parent's
    /// window (the carry).  Reports false exactly when the level's window
    /// has come home with opposing orientation, completing its cycle and
    /// toggling its parity.
    #[verifier::rlimit(100)]
    #[verifier::spinoff_prover]
    fn execute_level(&mut self, i: usize) -> (r: (bool, Move))
        requires
            old(self).wf(),
            (i as int) < old(self).k as int,
        ensures
            final(self).wf(),
            final(self).n == old(self).n,
            final(self).k == old(self).k,
            final(self).adj == old(self).adj,
            final(self).j@ == old(self).j@,
            final(self).l@.len() == old(self).l@.len(),
            final(self).l@.to_multiset() == old(self).l@.to_multiset(),
            r.1 matches Move::Swap(a, b) ==> (a as int) < old(self).l@.len()
                && (b as int) < old(self).l@.len() && a != b
                && final(self).l@ == old(self).l@.update(a as int, old(self).l@[b as int]).update(
                b as int,
                old(self).l@[a as int],
            ),
            r.1 is FlipSign ==> final(self).l@ == old(self).l@,
            !(r.1 is Noop),
            r.0 == false <==> (win_home(final(self).j@, final(self).ix@, i as int)
                && final(self).s@[i as int] != old(self).e@[i as int]),
            final(self).e@ == if r.0 {
                old(self).e@
            } else {
                old(self).e@.update(i as int, !old(self).e@[i as int])
            },
            ({
                let mv0 = level_move(old(self).sp_view(), i as int);
                &&& (mv0 matches Move::Swap(ra, rb) ==> {
                    let a = (old(self).j@[2 * i] + ra) as usize;
                    let b = (old(self).j@[2 * i] + rb) as usize;
                    &&& r.1 == Move::Swap(a, b)
                    &&& final(self).s@ == old(self).s@
                    &&& final(self).ix@ == (if old(self).ix@[2 * i] == a {
                        old(self).ix@.update(2 * i, b)
                    } else {
                        old(self).ix@.update(2 * i + 1, b)
                    })
                })
                &&& (mv0 is FlipSign && i > 0 ==> r.1 == Move::Swap(
                    old(self).ix@[2 * i - 1],
                    old(self).ix@[2 * i - 2],
                ) && final(self).s@ == old(self).s@.update(i as int, !old(self).s@[i as int])
                    && final(self).ix@ == old(self).ix@.update(
                    2 * i - 2,
                    old(self).ix@[2 * i - 1],
                ).update(2 * i - 1, old(self).ix@[2 * i - 2]))
                &&& (mv0 is FlipSign && i == 0 ==> r.1 == Move::FlipSign && final(self).s@ == old(
                    self,
                ).s@.update(i as int, !old(self).s@[i as int]) && final(self).ix@ == old(
                    self,
                ).ix@)
            }),
            ({
                let stepped = nrpr_step(old(self).sp_view(), i as int);
                final(self).sp_view() == stepped.0 && r.0 == stepped.1 && r.1 == stepped.2
            }),
    {
        let ghost pre = *self;
        let twok = self.ix.len();
        let m = self.l.len();
        proof {
            assert(twok as int == 2 * self.k as int);
            assert(win_ok(self.j@, self.ix@, m as int, i as int));
        }
        let ji = self.j[2 * i];
        let x1 = self.ix[2 * i];
        let x2 = self.ix[2 * i + 1];
        let (i1, i2) = sorted(x1, x2);
        let lo = i1 - ji;
        let hi = i2 - ji;
        let ev = self.e[i];
        let sv = self.s[i];
        let m0 = next_move(&self.adj, self.n, &self.l, ji, lo, hi, ev, sv);
        let ghost l_pre = self.l@;
        let mv: Move;
        match m0 {
            Move::Noop => {
                proof {
                    assert(hi == 1 && sv == !ev) by {
                        reveal(spec_next_move);
                    }
                    assert(win_home(self.j@, self.ix@, i as int));
                    assert(!(win_home(self.j@, self.ix@, i as int) && self.s@[i as int]
                        != self.e@[i as int]));
                    assert(false);
                }
                mv = Move::Noop;
            },
            Move::Swap(ra, rb) => {
                proof {
                    assert((ra == lo || ra == hi) && (rb == lo + 1 || rb == lo - 1 || rb == hi
                        + 1 || rb == hi - 1) && ji + rb < m && rb != lo && rb != hi) by {
                        reveal(spec_next_move);
                    }
                    lemma_swap_props(self.l@, ji + ra, ji + rb, self.n as int);
                }
                let a = ji + ra;
                let b = ji + rb;
                vec_swap(&mut self.l, a, b);
                if a == self.ix[2 * i] {
                    self.ix.set(2 * i, b);
                }
                if a == self.ix[2 * i + 1] {
                    self.ix.set(2 * i + 1, b);
                }
                proof {
                    assert(win_ok(self.j@, self.ix@, m as int, i as int));
                    assert forall|t: int|
                        0 <= t < self.ix@.len() && t != 2 * i as int && t != 2 * i as int
                        + 1 implies self.ix@[t] == pre.ix@[t] by {}
                }
                mv = Move::Swap(a, b);
            },
            Move::FlipSign => {
                self.s.set(i, !sv);
                if i > 0 {
                    let p = 2 * i - 2;
                    let x = self.ix[p];
                    let y = self.ix[p + 1];
                    proof {
                        assert(win_ok(self.j@, self.ix@, m as int, i as int - 1));
                        lemma_swap_props(self.l@, x as int, y as int, self.n as int);
                    }
                    vec_swap(&mut self.l, x, y);
                    vec_swap(&mut self.ix, p, p + 1);
                    let rx = self.ix[p];
                    let ry = self.ix[p + 1];
                    proof {
                        assert(self.l@ =~= l_pre.update(rx as int, l_pre[ry as int]).update(
                            ry as int,
                            l_pre[rx as int],
                        ));
                        assert(win_ok(self.j@, self.ix@, m as int, i as int));
                    }
                    mv = Move::Swap(rx, ry);
                } else {
                    mv = Move::FlipSign;
                }
            },
        }
        let (n1, n2) = sorted(self.ix[2 * i], self.ix[2 * i + 1]);
        let vi: bool;
        if n1 == ji && n2 == ji + 1 && self.s[i] != self.e[i] {
            let ecur = self.e[i];
            self.e.set(i, !ecur);
            vi = false;
        } else {
            vi = true;
        }
        proof {
            assert forall|t: int| 0 <= t < pre.k as int && t != i as int implies level_frame(
                pre,
                *self,
                t,
            ) by {
                assert(self.s@[t] == pre.s@[t] && self.e@[t] == pre.e@[t]);
                if m0 is FlipSign && i > 0 && t == i as int - 1 {
                    assert(self.ix@[2 * t] == pre.ix@[2 * t + 1] && self.ix@[2 * t + 1]
                        == pre.ix@[2 * t]);
                } else {
                    assert(self.ix@[2 * t] == pre.ix@[2 * t] && self.ix@[2 * t + 1]
                        == pre.ix@[2 * t + 1]);
                }
            }
            assert(win_home(self.j@, self.ix@, i as int) <==> (n1 == ji && n2 == ji + 1));
            assert(!(win_home(self.j@, self.ix@, i as int) && self.s@[i as int] != self.e@[
                i as int]));
            assert(win_ok(self.j@, self.ix@, m as int, i as int));
            lemma_wf_preserved(pre, *self, i as int, m as int);
            // the step matches the abstract model: the decision table saw
            // the same arguments, and each branch applied the same edits
            let pv = pre.sp_view();
            assert(level_move(pv, i as int) == m0) by {
                assert(pv.j[2 * i] == ji);
                assert(pv.ix[2 * i] == x1 && pv.ix[2 * i + 1] == x2);
                assert((if (x1 as int) < (x2 as int) {
                    x1 as int
                } else {
                    x2 as int
                }) - ji == lo as int);
                assert((if (x1 as int) < (x2 as int) {
                    x2 as int
                } else {
                    x1 as int
                }) - ji == hi as int);
            }
            let stepped = nrpr_step(pv, i as int);
            match m0 {
                Move::Noop => {
                    assert(false);
                },
                Move::Swap(ra, rb) => {
                    assert(ji + ra == pv.ix[2 * i] as int || ji + ra == pv.ix[2 * i
                        + 1] as int);
                    assert(self.ix@ =~= stepped.0.ix);
                    assert(self.l@ =~= stepped.0.l);
                },
                Move::FlipSign => {
                    assert(self.ix@ =~= stepped.0.ix);
                    assert(self.l@ =~= stepped.0.l);
                },
            }
            assert(self.sp_view() =~= stepped.0);
            assert(vi == stepped.1);
            assert(mv == stepped.2);
        }
        (vi, mv)
    }
}

/// What one step leaves untouched at every level but the advanced one: the
/// orientation and parity bits, and the window as a pair of slots (the
/// carry may exchange the parent's two entries).
pub open spec fn level_frame(pre: NRPR, post: NRPR, t: int) -> bool {
    &&& post.sign_view()[t] == pre.sign_view()[t]
    &&& post.parity_view()[t] == pre.parity_view()[t]
    &&& ((post.window_view()[2 * t] == pre.window_view()[2 * t] && post.window_view()[2 * t + 1]
        == pre.window_view()[2 * t + 1]) || (post.window_view()[2 * t] == pre.window_view()[2 * t
        + 1] && post.window_view()[2 * t + 1] == pre.window_view()[2 * t]))
}

/// A step that respects the frame on every other level, and leaves the
/// advanced level's window sound and settled, preserves well-formedness.
proof fn lemma_wf_preserved(pre: NRPR, post: NRPR, i: int, m: int)
    requires
        pre.wf(),
        0 <= i <= pre.k as int,
        m == pre.l@.len(),
        post.n == pre.n,
        post.k == pre.k,
        post.adj == pre.adj,
        post.j@ == pre.j@,
        post.l@.len() == pre.l@.len(),
        post.l@.no_duplicates(),
        nodes_below(post.l@, post.n as int),
        post.s@.len() == pre.s@.len(),
        post.e@.len() == pre.e@.len(),
        post.ix@.len() == pre.ix@.len(),
        forall|t: int| 0 <= t < pre.k as int && t != i ==> level_frame(pre, post, t),
        i < pre.k as int ==> win_ok(post.j@, post.ix@, m, i),
        i < pre.k as int ==> !(win_home(post.j@, post.ix@, i) && post.s@[i] != post.e@[i]),
    ensures
        post.wf(),
{
    assert forall|t: int| 0 <= t < post.k as int implies win_ok(
        post.j@,
        #[trigger] post.ix@,
        m,
        t,
    ) by {
        if t != i {
            assert(level_frame(pre, post, t));
            assert(win_ok(pre.j@, pre.ix@, m, t));
        }
    }
    assert forall|t: int|
        0 <= t < post.k as int implies !(win_home(post.j@, post.ix@, t) && #[trigger] post.s@[t]
        != post.e@[t]) by {
        if t != i {
            assert(level_frame(pre, post, t));
            assert(!(win_home(pre.j@, pre.ix@, t) && pre.s@[t] != pre.e@[t]));
            assert(win_home(post.j@, post.ix@, t) == win_home(pre.j@, pre.ix@, t));
        }
    }
}

/// Idempotence of construction: preprocessing is a function of the graph
/// alone, so two runs over the same graph yield the same initial state in
/// every observable component -- the base order, the anchors, the windows,
/// the orientation and parity bits, the level count and the adjacency
/// matrix.
pub proof fn lemma_construction_deterministic(x: &NRPR, y: &NRPR, gv: Seq<Seq<usize>>)
    requires
        x.order_view() == peel_result(gv).0,
        x.anchor_view() == peel_result(gv).1,
        x.window_view() == x.anchor_view(),
        x.levels_spec() == peel_result(gv).1.len() / 2,
        x.sign_view() == Seq::new(x.levels_spec() + 1, |i: int| true),
        x.parity_view() == Seq::new(x.levels_spec(), |i: int| true),
        x.nodes_spec() == gv.len(),
        forall|v: usize, w: usize|
            (v as int) < gv.len() && (w as int) < gv.len() ==> #[trigger] adj_bit(
                x.adj_view(),
                x.nodes_spec() as usize,
                v,
                w,
            ) == has_edge(gv, v, w),
        y.order_view() == peel_result(gv).0,
        y.anchor_view() == peel_result(gv).1,
        y.window_view() == y.anchor_view(),
        y.levels_spec() == peel_result(gv).1.len() / 2,
        y.sign_view() == Seq::new(y.levels_spec() + 1, |i: int| true),
        y.parity_view() == Seq::new(y.levels_spec(), |i: int| true),
        y.nodes_spec() == gv.len(),
        forall|v: usize, w: usize|
            (v as int) < gv.len() && (w as int) < gv.len() ==> #[trigger] adj_bit(
                y.adj_view(),
                y.nodes_spec() as usize,
                v,
                w,
            ) == has_edge(gv, v, w),
    ensures
        x.order_view() == y.order_view(),
        x.anchor_view() == y.anchor_view(),
        x.window_view() == y.window_view(),
        x.sign_view() == y.sign_view(),
        x.parity_view() == y.parity_view(),
        x.levels_spec() == y.levels_spec(),
        x.nodes_spec() == y.nodes_spec(),
        forall|v: usize, w: usize|
            (v as int) < gv.len() && (w as int) < gv.len() ==> #[trigger] adj_bit(
                x.adj_view(),
                x.nodes_spec() as usize,
                v,
                w,
            ) == adj_bit(y.adj_view(), y.nodes_spec() as usize, v, w),
{
}

/// A well-formed enumeration state satisfies the sub-process contract,
/// and its digit count is one past its level count.
pub proof fn lemma_nrpr_inv(p: &NRPR)
    requires
        p.wf(),
    ensures
        p.sp_inv(),
        p.sp_size() == p.sp_view().k + 1,
        p.sp_size() == p.levels_spec() + 1,
{
}

/// The stream of topological orders of one DAG: the raw state stream,
/// filtered to the half whose outermost orientation is positive.  A step
/// budget bounds the walk; it starts beyond any enumeration that could be
/// stepped through in practice.
pub struct Toposorts {
    it: GLPIterStates<NRPR>,
    fuel: u64,
}

/// Decompose a flat adjacency index into its row and column.
proof fn lemma_pos_div_mod(pos: int, n: int)
    requires
        0 < n,
        0 <= pos < n * n,
    ensures
        0 <= pos / n < n,
        0 <= pos % n < n,
        n * (pos / n) + pos % n == pos,
{
    vstd::arithmetic::div_mod::lemma_fundamental_div_mod(pos, n);
    vstd::arithmetic::div_mod::lemma_mod_division_less_than_divisor(pos, n);
    assert(0 <= pos / n) by (nonlinear_arith)
        requires
            0 < n,
            0 <= pos,
    ;
    assert(pos / n < n) by (nonlinear_arith)
        requires
            0 < n,
            pos < n * n,
            n * (pos / n) + pos % n == pos,
            0 <= pos % n,
    ;
}

/// The machine state preprocessing builds, as a function of the graph
/// alone.
pub open spec fn init_view(gv: Seq<Seq<usize>>) -> NrprView {
    let l = peel_result(gv).0;
    let j = peel_result(gv).1;
    let k = j.len() / 2;
    NrprView {
        n: gv.len(),
        k: k,
        adj: Seq::new(
            gv.len() * gv.len(),
            |pos: int|
                has_edge(
                    gv,
                    (pos / gv.len() as int) as usize,
                    (pos % gv.len() as int) as usize,
                ),
        ),
        l: l,
        j: j,
        ix: j,
        s: Seq::new(k + 1, |i: int| true),
        e: Seq::new(k, |i: int| true),
    }
}

/// The number of edits the threaded schedule draws from the abstract
/// machine state within the given step budget.
pub open spec fn delta_run_len(v: NrprView, p: Seq<usize>, fuel: nat) -> nat
    decreases fuel,
{
    if fuel == 0 {
        0
    } else if thread_sel(p) >= p.len() {
        0
    } else {
        let st = nrpr_step(v, thread_sel(p));
        1 + delta_run_len(st.0, thread_step(p, st.1), (fuel - 1) as nat)
    }
}

pub proof fn lemma_run_len_le_fuel(v: NrprView, p: Seq<usize>, fuel: nat)
    ensures
        delta_run_len(v, p, fuel) <= fuel,
    decreases fuel,
{
    if fuel > 0 && thread_sel(p) < p.len() {
        let st = nrpr_step(v, thread_sel(p));
        lemma_run_len_le_fuel(st.0, thread_step(p, st.1), (fuel - 1) as nat);
    }
}

/// Whether `l` respects every edge the adjacency bits hold: a recorded
/// target is placed only after its source.
pub open spec fn order_edge_ok(adjb: Seq<bool>, n: nat, l: Seq<usize>) -> bool {
    forall|v: usize, w: usize|
        (v as int) < n && (w as int) < n && #[trigger] adj_bit(adjb, n as usize, v, w)
            && l.contains(w) ==> l.contains(v) && l.index_of(v) < l.index_of(w)
}

/// One call of the filtered stream, from the abstract machine state: the
/// yield (if any), then the machine view, the scanning flags, the started
/// mark and the step budget the stream is left with.  The walk ends at the
/// first state carrying a positive outermost orientation -- yielding its
/// order if it respects every recorded edge, else stopping the enumeration,
/// an inconsistency only a cyclic input can produce -- or when the
/// schedule halts or the budget runs dry.
pub open spec fn stream_walk(
    v: NrprView,
    flags: Seq<bool>,
    started: bool,
    fuel: nat,
) -> (Option<Seq<usize>>, NrprView, Seq<bool>, bool, nat)
    decreases fuel,
{
    if fuel == 0 {
        (Option::None, v, flags, started, 0nat)
    } else if !started {
        if v.s.len() > 0 && v.s[0] {
            if order_edge_ok(v.adj, v.n, v.l) {
                (Option::Some(v.l), v, flags, true, (fuel - 1) as nat)
            } else {
                (Option::None, v, flags, true, (fuel - 1) as nat)
            }
        } else {
            stream_walk(v, flags, true, (fuel - 1) as nat)
        }
    } else if scan_sel(flags) >= flags.len() {
        (Option::None, v, flags, started, (fuel - 1) as nat)
    } else {
        let st = nrpr_step(v, scan_sel(flags));
        let f2 = scan_step(flags, st.1);
        if st.0.s.len() > 0 && st.0.s[0] {
            if order_edge_ok(st.0.adj, st.0.n, st.0.l) {
                (Option::Some(st.0.l), st.0, f2, true, (fuel - 1) as nat)
            } else {
                (Option::None, st.0, f2, true, (fuel - 1) as nat)
            }
        } else {
            stream_walk(st.0, f2, true, (fuel - 1) as nat)
        }
    }
}

/// The edits the scanning schedule draws from the abstract machine state
/// within the given step budget.
pub open spec fn scan_delta_run(v: NrprView, f: Seq<bool>, fuel: nat) -> Seq<Move>
    decreases fuel,
{
    if fuel == 0 {
        Seq::empty()
    } else if scan_sel(f) >= f.len() {
        Seq::empty()
    } else {
        let st = nrpr_step(v, scan_sel(f));
        seq![st.2] + scan_delta_run(st.0, scan_step(f, st.1), (fuel - 1) as nat)
    }
}

/// The edits the threaded schedule draws from the same machine state.
pub open spec fn thread_delta_run(v: NrprView, p: Seq<usize>, fuel: nat) -> Seq<Move>
    decreases fuel,
{
    if fuel == 0 {
        Seq::empty()
    } else if thread_sel(p) >= p.len() {
        Seq::empty()
    } else {
        let st = nrpr_step(v, thread_sel(p));
        seq![st.2] + thread_delta_run(st.0, thread_step(p, st.1), (fuel - 1) as nat)
    }
}

/// Driven over the same sub-process state, the two scheduling strategies
/// yield identical edit sequences, step for step.
pub proof fn lemma_strategy_deltas_agree(v: NrprView, f: Seq<bool>, p: Seq<usize>, fuel: nat)
    requires
        crate::sched::blocks_ok(f, p),
        f.len() <= usize::MAX,
    ensures
        scan_delta_run(v, f, fuel) == thread_delta_run(v, p, fuel),
    decreases fuel,
{
    crate::sched::lemma_sel_agree(f, p);
    if fuel > 0 && scan_sel(f) < f.len() {
        let st = nrpr_step(v, scan_sel(f));
        crate::sched::lemma_blocks_step(f, p, st.1);
        lemma_strategy_deltas_agree(
            st.0,
            scan_step(f, st.1),
            thread_step(p, st.1),
            (fuel - 1) as nat,
        );
    }
}

/// From the initial configurations in particular: the delta stream and a
/// scanning walk over the same machine produce the same edits.
pub proof fn lemma_strategy_delta_runs_from_start(v: NrprView, n: nat, fuel: nat)
    requires
        n <= usize::MAX,
    ensures
        scan_delta_run(v, scan_init(n), fuel) == thread_delta_run(v, thread_init(n), fuel),
{
    assert forall|j: int|
        0 <= j < n && (#[trigger] thread_init(n)[j]) != 0usize implies crate::sched::block_ok(
        scan_init(n),
        thread_init(n),
        j,
    ) by {}
    lemma_strategy_deltas_agree(v, scan_init(n), thread_init(n), fuel);
}

/// Decide whether the order respects every recorded edge: the
/// enumeration's own hardening check before an order is handed out.  On
/// an acyclic input it always passes; only a cyclic input can break it.
fn check_order(ab: &bit_vec::BitVec, n: usize, l: &Vec<usize>) -> (b: bool)
    requires
        bits_of(*ab).len() == n as int * n as int,
        n as int * n as int <= usize::MAX,
        nodes_below(l@, n as int),
        l@.no_duplicates(),
        l@.len() <= n,
    ensures
        b == order_edge_ok(bits_of(*ab), n as nat, l@),
{
    let mut pos: Vec<usize> = Vec::new();
    let mut z: usize = 0;
    while z < n
        invariant
            z <= n,
            pos@.len() == z as int,
            forall|t: int| 0 <= t < z ==> (#[trigger] pos@[t]) == n,
        decreases n - z,
    {
        pos.push(n);
        z = z + 1;
    }
    let mut i: usize = 0;
    while i < l.len()
        invariant
            i <= l@.len(),
            l@.len() <= n,
            nodes_below(l@, n as int),
            l@.no_duplicates(),
            pos@.len() == n as int,
            forall|x: usize|
                (x as int) < n as int ==> ((#[trigger] pos@[x as int]) as int == (
                if l@.take(i as int).contains(x) {
                    l@.index_of(x)
                } else {
                    n as int
                })),
        decreases l@.len() - i,
    {
        let x = l[i];
        proof {
            assert(l@.contains(l@[i as int]));
            let j = choose|j: int| 0 <= j < l@.len() && l@[j] == l@[i as int];
            assert(l@.index_of(l@[i as int]) == i as int);
        }
        pos.set(x, i);
        proof {
            assert forall|x2: usize| (x2 as int) < n as int implies ((#[trigger] pos@[
            x2 as int]) as int == (if l@.take(i + 1).contains(x2) {
                l@.index_of(x2)
            } else {
                n as int
            })) by {
                lemma_push_contains(l@.take(i as int), l@[i as int], x2);
                assert(l@.take(i + 1) =~= l@.take(i as int).push(l@[i as int]));
                if l@.take(i + 1).contains(x2) && x2 != l@[i as int] {
                    assert(l@.take(i as int).contains(x2));
                }
            }
        }
        i = i + 1;
    }
    proof {
        assert(l@.take(l@.len() as int) =~= l@);
        assert forall|x: usize|
            (x as int) < n as int implies ((pos@[x as int] as int) < n as int <==> l@.contains(
            x,
        )) by {
            if l@.contains(x) {
                assert(0 <= l@.index_of(x) < l@.len());
            }
        }
    }
    let mut v: usize = 0;
    while v < n
        invariant
            v <= n,
            bits_of(*ab).len() == n as int * n as int,
            n as int * n as int <= usize::MAX,
            nodes_below(l@, n as int),
            l@.no_duplicates(),
            l@.len() <= n,
            pos@.len() == n as int,
            forall|x: usize|
                (x as int) < n as int ==> ((#[trigger] pos@[x as int]) as int == (
                if l@.contains(x) {
                    l@.index_of(x)
                } else {
                    n as int
                })),
            forall|v2: usize, w2: usize|
                (v2 as int) < v as int && (w2 as int) < n as int && #[trigger] adj_bit(
                    bits_of(*ab),
                    n,
                    v2,
                    w2,
                ) && l@.contains(w2) ==> l@.contains(v2) && l@.index_of(v2) < l@.index_of(w2),
        decreases n - v,
    {
        let mut w: usize = 0;
        while w < n
            invariant
                w <= n,
                v < n,
                bits_of(*ab).len() == n as int * n as int,
                n as int * n as int <= usize::MAX,
                nodes_below(l@, n as int),
                l@.no_duplicates(),
                l@.len() <= n,
                pos@.len() == n as int,
                forall|x: usize|
                    (x as int) < n as int ==> ((#[trigger] pos@[x as int]) as int == (
                    if l@.contains(x) {
                        l@.index_of(x)
                    } else {
                        n as int
                    })),
                forall|v2: usize, w2: usize|
                    (v2 as int) < v as int && (w2 as int) < n as int && #[trigger] adj_bit(
                        bits_of(*ab),
                        n,
                        v2,
                        w2,
                    ) && l@.contains(w2) ==> l@.contains(v2) && l@.index_of(v2) < l@.index_of(
                        w2,
                    ),
                forall|w2: usize|
                    (w2 as int) < w as int && #[trigger] adj_bit(bits_of(*ab), n, v, w2)
                        && l@.contains(w2) ==> l@.contains(v) && l@.index_of(v) < l@.index_of(
                        w2,
                    ),
            decreases n - w,
        {
            if bv_get(ab, edge_pos(n, v, w)) {
                let pw = pos[w];
                if pw < n {
                    proof {
                        assert(l@.contains(w));
                    }
                    let pvv = pos[v];
                    if pvv >= pw {
                        proof {
                            assert(adj_bit(bits_of(*ab), n, v, w));
                            assert(pos@[w as int] as int == l@.index_of(w));
                            if l@.contains(v) {
                                assert(pos@[v as int] as int == l@.index_of(v));
                                assert(l@.index_of(v) >= l@.index_of(w));
                            }
                            assert(!(l@.contains(v) && l@.index_of(v) < l@.index_of(w)));
                            assert(!order_edge_ok(bits_of(*ab), n as nat, l@)) by {
                                assert((n as nat) as usize == n);
                                assert(adj_bit(bits_of(*ab), (n as nat) as usize, v, w));
                                if order_edge_ok(bits_of(*ab), n as nat, l@) {
                                    assert(l@.contains(v) && l@.index_of(v) < l@.index_of(
                                        w,
                                    ));
                                }
                            }
                        }
                        return false;
                    }
                    proof {
                        assert(l@.contains(v));
                    }
                }
            }
            w = w + 1;
        }
        v = v + 1;
    }
    proof {
        assert(order_edge_ok(bits_of(*ab), n as nat, l@));
    }
    true
}

/// With the adjacency bits agreeing with the graph's edges, an order that
/// respects the bits respects the graph.
pub proof fn lemma_order_edge_topo(gv: Seq<Seq<usize>>, adjb: Seq<bool>, l: Seq<usize>)
    requires
        gv.len() <= usize::MAX,
        forall|v: usize, w: usize|
            (v as int) < gv.len() && (w as int) < gv.len() ==> #[trigger] adj_bit(
                adjb,
                gv.len() as usize,
                v,
                w,
            ) == has_edge(gv, v, w),
        l.no_duplicates(),
        nodes_below(l, gv.len() as int),
        order_edge_ok(adjb, gv.len(), l),
    ensures
        topo_ok(gv, l),
{
    assert forall|p: int, v: usize|
        0 <= p < l.len() && #[trigger] has_edge(gv, v, l[p]) implies exists|q: int|
            0 <= q < p && l[q] == v by {
        let w = l[p];
        assert((w as int) < gv.len());
        assert(adj_bit(adjb, gv.len() as usize, v, w));
        assert(l.contains(w));
        assert(l.contains(v) && l.index_of(v) < l.index_of(w));
        assert(l[l.index_of(w)] == w);
        assert(l.index_of(w) == p);
        assert(l[l.index_of(v)] == v);
    }
}

/// The state the stream's walk lands on keeps the graph data: node count,
/// level count and adjacency bits never change.
pub proof fn lemma_stream_walk_frame(v: NrprView, flags: Seq<bool>, started: bool, fuel: nat)
    ensures
        stream_walk(v, flags, started, fuel).1.adj == v.adj,
        stream_walk(v, flags, started, fuel).1.n == v.n,
        stream_walk(v, flags, started, fuel).1.k == v.k,
    decreases fuel,
{
    if fuel > 0 {
        if !started {
            if !(v.s.len() > 0 && v.s[0]) {
                lemma_stream_walk_frame(v, flags, true, (fuel - 1) as nat);
            }
        } else if scan_sel(flags) < flags.len() {
            let st = nrpr_step(v, scan_sel(flags));
            let f2 = scan_step(flags, st.1);
            if !(st.0.s.len() > 0 && st.0.s[0]) {
                lemma_stream_walk_frame(st.0, f2, true, (fuel - 1) as nat);
            }
        }
    }
}

/// The stream over the empty graph owes its one trivial order at once:
/// from the freshly built machine the very first step yields the empty
/// order.
pub proof fn lemma_empty_graph_first_order(gv: Seq<Seq<usize>>)
    requires
        gv.len() == 0,
    ensures
        stream_walk(
            init_view(gv),
            scan_init(init_view(gv).k + 1),
            false,
            u64::MAX as nat,
        ).0 == Option::Some(Seq::<usize>::empty()),
{
    let v = init_view(gv);
    assert(peel_result(gv).1.len() == 0);
    assert(v.k == 0);
    assert(v.s.len() == 1 && v.s[0]);
    assert(v.l =~= Seq::<usize>::empty());
    assert(order_edge_ok(v.adj, v.n, v.l));
}

impl Toposorts {
    pub closed spec fn wf(&self) -> bool {
        &&& self.it.wf()
        &&& self.it.proc_view().sp_inv()
    }

    /// The number of nodes of the graph this stream was built from.
    pub closed spec fn nodes_spec(&self) -> nat {
        self.it.proc_view().n as nat
    }

    /// The fixed multiset of nodes every state of the stream carries.
    pub closed spec fn order_multiset(&self) -> Multiset<usize> {
        self.it.proc_view().l@.to_multiset()
    }

    /// The abstract state of the machine the stream walks.
    pub closed spec fn machine_view(&self) -> NrprView {
        self.it.proc_view().sp_view()
    }

    pub closed spec fn flags_spec(&self) -> Seq<bool> {
        self.it.flags_view()
    }

    pub closed spec fn started_spec(&self) -> bool {
        self.it.started_view()
    }

    pub closed spec fn fuel_spec(&self) -> nat {
        self.fuel as nat
    }

    /// The next topological order: exactly what `stream_walk` says the
    /// machine yields from the current state -- `None` exactly when it
    /// says so -- and the stream is left in exactly the state the walk
    /// stopped at, so repeated calls follow the model.  Every yielded
    /// order is duplicate-free, stays within the graph's nodes, holds
    /// exactly the nodes of the initial peel, and respects every recorded
    /// edge.
    #[verifier::rlimit(100)]
    #[verifier::spinoff_prover]
    pub fn next(&mut self) -> (r: Option<Vec<usize>>)
        requires
            old(self).wf(),
        ensures
            final(self).wf(),
            final(self).nodes_spec() == old(self).nodes_spec(),
            final(self).order_multiset() == old(self).order_multiset(),
            r matches Some(v) ==> v@.no_duplicates() && nodes_below(
                v@,
                old(self).nodes_spec() as int,
            ) && v@.to_multiset() == old(self).order_multiset() && v@.len() == old(
                self,
            ).order_multiset().len(),
            ({
                let w = stream_walk(
                    old(self).machine_view(),
                    old(self).flags_spec(),
                    old(self).started_spec(),
                    old(self).fuel_spec(),
                );
                &&& (r is Some <==> w.0 is Some)
                &&& (r matches Some(v) ==> w.0 == Option::Some(v@))
                &&& final(self).machine_view() == w.1
                &&& final(self).flags_spec() == w.2
                &&& final(self).started_spec() == w.3
                &&& final(self).fuel_spec() == w.4
            }),
            r matches Some(v) ==> order_edge_ok(
                final(self).machine_view().adj,
                final(self).machine_view().n,
                v@,
            ),
    {
        let ghost n0 = self.it.proc_view().n;
        let ghost ms0 = self.it.proc_view().l@.to_multiset();
        let ghost w0 = stream_walk(
            self.machine_view(),
            self.flags_spec(),
            self.started_spec(),
            self.fuel as nat,
        );
        while self.fuel > 0
            invariant
                self.it.wf(),
                self.it.proc_view().n == n0,
                self.it.proc_view().l@.to_multiset() == ms0,
                old(self).nodes_spec() == n0 as nat,
                old(self).order_multiset() == ms0,
                w0 == stream_walk(
                    old(self).machine_view(),
                    old(self).flags_spec(),
                    old(self).started_spec(),
                    old(self).fuel_spec(),
                ),
                w0 == stream_walk(
                    self.machine_view(),
                    self.flags_spec(),
                    self.started_spec(),
                    self.fuel as nat,
                ),
                self.it.proc_view().sp_inv(),
            decreases self.fuel,
        {
            let ghost pv = self.machine_view();
            let ghost fl = self.flags_spec();
            let ghost stt = self.started_spec();
            let ghost fu = self.fuel as nat;
            self.fuel = self.fuel - 1;
            let more = self.it.step();
            proof {
                assert(pv.s.len() > 0);
                assert(self.machine_view().s.len() > 0);
            }
            if !more {
                proof {
                    assert(stt);
                    assert(w0 == (
                        Option::None::<Seq<usize>>,
                        pv,
                        fl,
                        stt,
                        (fu - 1) as nat,
                    ));
                }
                return None;
            }
            let st = self.it.current();
            proof {
                assert(st.wf());
                if !stt {
                    assert(self.machine_view() == pv && self.flags_spec() == fl);
                } else {
                    let sel = scan_sel(fl);
                    assert(self.machine_view() == nrpr_step(pv, sel).0);
                    assert(self.flags_spec() == scan_step(fl, nrpr_step(pv, sel).1));
                }
            }
            if st.s[0] {
                proof {
                    assert(self.machine_view().adj == bits_of(st.adj));
                    assert(self.machine_view().n == st.n as nat);
                    assert(self.machine_view().l == st.l@);
                    assert(st.l@.len() <= st.n as int);
                }
                let ok = check_order(&st.adj, st.n, &st.l);
                if ok {
                    proof {
                        vstd::seq_lib::to_multiset_len::<usize>(st.l@);
                        assert(w0 == (
                            Option::Some(st.l@),
                            self.machine_view(),
                            self.flags_spec(),
                            true,
                            (fu - 1) as nat,
                        ));
                    }
                    return Some(copy_usize_vec(&st.l));
                } else {
                    proof {
                        assert(w0 == (
                            Option::None::<Seq<usize>>,
                            self.machine_view(),
                            self.flags_spec(),
                            true,
                            (fu - 1) as nat,
                        ));
                    }
                    return None;
                }
            }
            proof {
                assert(w0 == stream_walk(
                    self.machine_view(),
                    self.flags_spec(),
                    true,
                    (fu - 1) as nat,
                ));
            }
        }
        proof {
            assert(w0 == (
                Option::None::<Seq<usize>>,
                self.machine_view(),
                self.flags_spec(),
                self.started_spec(),
                0nat,
            ));
        }
        None
    }
}

/// Enumerate every topological order of `g`, each exactly once: the raw
/// state stream, filtered to the states with positive outermost
/// orientation.  Every yielded order is a permutation of the initial peel
/// order, which is itself a duplicate-free order respecting every edge of
/// `g`.
pub fn toposorts(g: Graph0) -> (ts: Toposorts)
    requires
        g.wf(),
        g.succ_view().len() * g.succ_view().len() <= usize::MAX,
    ensures
        ts.wf(),
        ts.nodes_spec() == g.succ_view().len(),
        ts.machine_view() == init_view(g.succ_view()),
        ts.flags_spec() == scan_init(init_view(g.succ_view()).k + 1),
        !ts.started_spec(),
        ts.fuel_spec() == u64::MAX as nat,
        exists|base: Seq<usize>|
            (#[trigger] base.to_multiset()) == ts.order_multiset() && base.no_duplicates()
                && topo_ok(g.succ_view(), base) && base.len() <= g.succ_view().len() && (acyclic(
                g.succ_view(),
            ) ==> base.len() == g.succ_view().len()),
{
    proof {
        lemma_graph0_wf(&g);
    }
    let proc = NRPR::new(&g);
    proof {
        lemma_nrpr_inv(&proc);
    }
    let ghost base = proc.l@;
    let ts = Toposorts { it: states(proc), fuel: u64::MAX };
    proof {
        assert(base.to_multiset() == ts.order_multiset());
    }
    ts
}

} // verus!
