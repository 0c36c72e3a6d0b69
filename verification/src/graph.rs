pub mod simple;

use vstd::prelude::*;

verus! {

/// A read-only view of a directed acyclic graph.  Nodes are the integers
/// `0..size`; an edge `(v, w)` means "v must precede w".  The whole graph is
/// described by one successor list per node, exposed to specifications
/// through `succ_view`.
pub trait Graph: Sized {
    /// The successor list of every node, as a mathematical sequence.
    spec fn succ_view(&self) -> Seq<Seq<usize>>;

    /// Number of nodes.
    fn size(&self) -> (n: usize)
        ensures
            n as nat == self.succ_view().len(),
    ;

    /// Every edge, grouped by source node.
    fn edges(&self) -> (e: Vec<(usize, usize)>)
        ensures
            e@ == edge_seq(self.succ_view()),
    ;

    /// The direct successors of node `v`.
    fn successors(&self, v: usize) -> (s: Vec<usize>)
        requires
            (v as int) < self.succ_view().len(),
        ensures
            s@ == self.succ_view()[v as int],
    ;
}

/// All successor entries name existing nodes.
pub open spec fn graph_wf(g: Seq<Seq<usize>>) -> bool {
    forall|v: int, t: int|
        0 <= v < g.len() && 0 <= t < g[v].len() ==> (#[trigger] g[v][t]) < g.len()
}

/// The edges leaving node `v`, in successor-list order.
pub open spec fn pair_row(v: usize, row: Seq<usize>) -> Seq<(usize, usize)> {
    Seq::new(row.len(), |t: int| (v, row[t]))
}

/// The edges of all nodes below `v`, grouped by source.
pub open spec fn edge_seq_upto(g: Seq<Seq<usize>>, v: int) -> Seq<(usize, usize)>
    decreases v,
{
    if v <= 0 {
        Seq::empty()
    } else {
        edge_seq_upto(g, v - 1) + pair_row((v - 1) as usize, g[v - 1])
    }
}

/// The full edge list, grouped by source.
pub open spec fn edge_seq(g: Seq<Seq<usize>>) -> Seq<(usize, usize)> {
    edge_seq_upto(g, g.len() as int)
}

/// Whether the graph has an edge from `v` to `w`.
pub open spec fn has_edge(g: Seq<Seq<usize>>, v: usize, w: usize) -> bool {
    (v as int) < g.len() && g[v as int].contains(w)
}

/// How often `w` occurs in one successor list.
pub open spec fn occ(row: Seq<usize>, w: usize) -> nat
    decreases row.len(),
{
    if row.len() == 0 {
        0
    } else {
        occ(row.drop_last(), w) + if row.last() == w {
            1nat
        } else {
            0nat
        }
    }
}

/// How many pairs of `s` point at `w`.
pub open spec fn tgt(s: Seq<(usize, usize)>, w: usize) -> nat
    decreases s.len(),
{
    if s.len() == 0 {
        0
    } else {
        tgt(s.drop_last(), w) + if s.last().1 == w {
            1nat
        } else {
            0nat
        }
    }
}

/// The number of edges into `w` whose source node is below `v` and not yet
/// in `placed`.
pub open spec fn ic_upto(g: Seq<Seq<usize>>, placed: Seq<usize>, w: usize, v: int) -> nat
    decreases v,
{
    if v <= 0 {
        0
    } else {
        ic_upto(g, placed, w, v - 1) + if placed.contains((v - 1) as usize) {
            0nat
        } else {
            occ(g[v - 1], w)
        }
    }
}

/// The number of edges into `w` from nodes outside `placed`: the remaining
/// in-degree of `w` once the nodes of `placed` are pinned down.
pub open spec fn in_count(g: Seq<Seq<usize>>, placed: Seq<usize>, w: usize) -> nat {
    ic_upto(g, placed, w, g.len() as int)
}

/// Every entry of `l` is below `n`.
pub open spec fn nodes_below(l: Seq<usize>, n: int) -> bool {
    forall|i: int| 0 <= i < l.len() ==> (#[trigger] l[i]) < n
}

/// `l` respects every edge whose target it contains: the source stands
/// earlier in `l`.
pub open spec fn topo_ok(g: Seq<Seq<usize>>, l: Seq<usize>) -> bool {
    forall|p: int, v: usize|
        0 <= p < l.len() && #[trigger] has_edge(g, v, l[p]) ==> exists|q: int|
            0 <= q < p && l[q] == v
}

pub proof fn lemma_push_contains<A>(s: Seq<A>, a: A, x: A)
    ensures
        s.push(a).contains(x) <==> (s.contains(x) || x == a),
{
    if s.contains(x) {
        let i = choose|i: int| 0 <= i < s.len() && s[i] == x;
        assert(s.push(a)[i] == x);
    }
    if x == a {
        assert(s.push(a)[s.len() as int] == x);
    }
    if s.push(a).contains(x) {
        let i = choose|i: int| 0 <= i < s.push(a).len() && s.push(a)[i] == x;
        if i < s.len() {
            assert(s[i] == x);
        }
    }
}

pub proof fn lemma_occ_contains(row: Seq<usize>, w: usize)
    ensures
        occ(row, w) > 0 <==> row.contains(w),
    decreases row.len(),
{
    if row.len() > 0 {
        lemma_occ_contains(row.drop_last(), w);
        if row.contains(w) {
            let i = choose|i: int| 0 <= i < row.len() && row[i] == w;
            if i < row.len() - 1 {
                assert(row.drop_last()[i] == w);
            }
        }
        if row.drop_last().contains(w) {
            let i = choose|i: int| 0 <= i < row.len() - 1 && row.drop_last()[i] == w;
            assert(row[i] == w);
        }
    }
}

pub proof fn lemma_occ_take_step(row: Seq<usize>, w: usize, t: int)
    requires
        0 <= t < row.len(),
    ensures
        occ(row.take(t + 1), w) == occ(row.take(t), w) + if row[t] == w {
            1nat
        } else {
            0nat
        },
{
    assert(row.take(t + 1).drop_last() =~= row.take(t));
    assert(row.take(t + 1).last() == row[t]);
}

pub proof fn lemma_occ_take_mono(row: Seq<usize>, w: usize, u: int)
    requires
        0 <= u <= row.len(),
    ensures
        occ(row.take(u), w) <= occ(row, w),
    decreases row.len() - u,
{
    if u == row.len() {
        assert(row.take(u) =~= row);
    } else {
        lemma_occ_take_step(row, w, u);
        lemma_occ_take_mono(row, w, u + 1);
    }
}

pub proof fn lemma_tgt_le_len(s: Seq<(usize, usize)>, w: usize)
    ensures
        tgt(s, w) <= s.len(),
    decreases s.len(),
{
    if s.len() > 0 {
        lemma_tgt_le_len(s.drop_last(), w);
    }
}

pub proof fn lemma_tgt_take_step(s: Seq<(usize, usize)>, w: usize, t: int)
    requires
        0 <= t < s.len(),
    ensures
        tgt(s.take(t + 1), w) == tgt(s.take(t), w) + if s[t].1 == w {
            1nat
        } else {
            0nat
        },
{
    assert(s.take(t + 1).drop_last() =~= s.take(t));
    assert(s.take(t + 1).last() == s[t]);
}

pub proof fn lemma_tgt_append_row(a: Seq<(usize, usize)>, v: usize, row: Seq<usize>, w: usize)
    ensures
        tgt(a + pair_row(v, row), w) == tgt(a, w) + occ(row, w),
    decreases row.len(),
{
    if row.len() == 0 {
        assert(a + pair_row(v, row) =~= a);
    } else {
        lemma_tgt_append_row(a, v, row.drop_last(), w);
        let q = a + pair_row(v, row.drop_last());
        assert(a + pair_row(v, row) =~= q.push((v, row.last())));
        assert(q.push((v, row.last())).drop_last() =~= q);
    }
}

/// The in-degree of `w` counted from the edge list equals the in-degree
/// counted per source node, when nothing is placed yet.
pub proof fn lemma_tgt_edge_seq(g: Seq<Seq<usize>>, w: usize, v: int)
    requires
        0 <= v <= g.len(),
    ensures
        tgt(edge_seq_upto(g, v), w) == ic_upto(g, Seq::<usize>::empty(), w, v),
    decreases v,
{
    if v > 0 {
        lemma_tgt_edge_seq(g, w, v - 1);
        lemma_tgt_append_row(edge_seq_upto(g, v - 1), (v - 1) as usize, g[v - 1], w);
    }
}

/// Placing one more node removes exactly its own contribution from the
/// remaining in-degree of every `w`.
pub proof fn lemma_ic_push(g: Seq<Seq<usize>>, placed: Seq<usize>, a: usize, w: usize, v: int)
    requires
        !placed.contains(a),
        v <= usize::MAX,
    ensures
        ic_upto(g, placed, w, v) == ic_upto(g, placed.push(a), w, v) + if 0 <= (a as int) < v {
            occ(g[a as int], w)
        } else {
            0nat
        },
    decreases v,
{
    if v > 0 {
        lemma_ic_push(g, placed, a, w, v - 1);
        lemma_push_contains(placed, a, (v - 1) as usize);
        assert(ic_upto(g, placed, w, v) == ic_upto(g, placed, w, v - 1)
            + if placed.contains((v - 1) as usize) {
                0nat
            } else {
                occ(g[v - 1], w)
            });
        assert(ic_upto(g, placed.push(a), w, v) == ic_upto(g, placed.push(a), w, v - 1)
            + if placed.push(a).contains((v - 1) as usize) {
                0nat
            } else {
                occ(g[v - 1], w)
            });
    }
}

/// A node with remaining in-degree zero has all its predecessors placed.
pub proof fn lemma_ic_zero_sources(g: Seq<Seq<usize>>, placed: Seq<usize>, w: usize, v: int, v0: usize)
    requires
        0 <= v <= usize::MAX,
        v <= g.len(),
        ic_upto(g, placed, w, v) == 0,
        (v0 as int) < v,
        g[v0 as int].contains(w),
    ensures
        placed.contains(v0),
    decreases v,
{
    if v > 0 {
        if (v0 as int) == v - 1 {
            lemma_occ_contains(g[v0 as int], w);
        } else {
            lemma_ic_zero_sources(g, placed, w, v - 1, v0);
        }
    }
}

/// A value seen by `Graph0`'s callers: the per-node successor sequences.
pub open spec fn rows_view(v: Seq<Vec<usize>>) -> Seq<Seq<usize>> {
    Seq::new(v.len(), |i: int| v[i]@)
}

/// An adjacency-list DAG owned by the caller.
#[derive(Debug, Clone)]
pub struct Graph0 {
    succ: Vec<Vec<usize>>,
    edge_count: usize,
}

impl Graph0 {
    pub closed spec fn wf(&self) -> bool {
        &&& graph_wf(rows_view(self.succ@))
        &&& self.edge_count as nat == edge_seq(rows_view(self.succ@)).len()
    }

    /// A graph on `size` nodes with no edges yet.
    pub fn new(size: usize) -> (g: Graph0)
        ensures
            g.wf(),
            g.succ_view().len() == size,
            forall|v: int| 0 <= v < size ==> (#[trigger] g.succ_view()[v]).len() == 0,
            g.edge_count_spec() == 0,
    {
        let mut succ: Vec<Vec<usize>> = Vec::new();
        let mut i: usize = 0;
        while i < size
            invariant
                i <= size,
                succ@.len() == i as int,
                forall|v: int| 0 <= v < i ==> (#[trigger] succ@[v])@.len() == 0,
            decreases size - i,
        {
            succ.push(Vec::new());
            i = i + 1;
        }
        proof {
            lemma_edge_seq_empty(rows_view(succ@), size as int);
        }
        Graph0 { succ, edge_count: 0 }
    }

    pub closed spec fn edge_count_spec(&self) -> nat {
        self.edge_count as nat
    }

    /// The number of edges added so far.
    pub fn edge_count(&self) -> (m: usize)
        ensures
            m as nat == self.edge_count_spec(),
    {
        self.edge_count
    }

    /// Record the edge `(from, to)`.  Both endpoints must be existing nodes,
    /// and the total edge count must still fit in a machine word.
    pub fn add_edge(&mut self, from: usize, to: usize)
        requires
            (from as int) < old(self).succ_view().len(),
            (to as int) < old(self).succ_view().len(),
            old(self).edge_count_spec() < usize::MAX,
            old(self).wf(),
        ensures
            final(self).wf(),
            final(self).succ_view() == old(self).succ_view().update(
                from as int,
                old(self).succ_view()[from as int].push(to),
            ),
            final(self).edge_count_spec() == old(self).edge_count_spec() + 1,
    {
        let ghost old_rows = rows_view(self.succ@);
        let mut row = self.succ.remove(from);
        row.push(to);
        self.succ.insert(from, row);
        self.edge_count = self.edge_count + 1;
        proof {
            assert(rows_view(self.succ@) =~= old_rows.update(
                from as int,
                old_rows[from as int].push(to),
            ));
            lemma_edge_seq_update_push(old_rows, from, to);
        }
    }
}

/// A graph whose rows are all empty has no edges.
pub proof fn lemma_edge_seq_empty(g: Seq<Seq<usize>>, v: int)
    requires
        0 <= v <= g.len(),
        forall|i: int| 0 <= i < g.len() ==> (#[trigger] g[i]).len() == 0,
    ensures
        edge_seq_upto(g, v).len() == 0,
    decreases v,
{
    if v > 0 {
        lemma_edge_seq_empty(g, v - 1);
    }
}

/// Appending one successor to one row grows the edge list by one pair.
pub proof fn lemma_edge_seq_update_push(g: Seq<Seq<usize>>, from: usize, to: usize)
    requires
        0 <= (from as int) < g.len(),
        graph_wf(g),
        (to as int) < g.len(),
    ensures
        graph_wf(g.update(from as int, g[from as int].push(to))),
        edge_seq(g.update(from as int, g[from as int].push(to))).len() == edge_seq(g).len() + 1,
{
    let g2 = g.update(from as int, g[from as int].push(to));
    assert forall|v: int, t: int|
        0 <= v < g2.len() && 0 <= t < g2[v].len() implies (#[trigger] g2[v][t]) < g2.len() by {
        if v == from as int && t == g[from as int].len() {
        } else {
            assert(g2[v][t] == g[v][t]);
        }
    }
    lemma_edge_seq_update_len(g, g2, from as int, g.len() as int);
}

pub proof fn lemma_edge_seq_update_len(g: Seq<Seq<usize>>, g2: Seq<Seq<usize>>, from: int, v: int)
    requires
        0 <= from < g.len(),
        g2.len() == g.len(),
        g2[from].len() == g[from].len() + 1,
        forall|i: int| 0 <= i < g.len() && i != from ==> g2[i] == g[i],
        0 <= v <= g.len(),
    ensures
        edge_seq_upto(g2, v).len() == edge_seq_upto(g, v).len() + if from < v {
            1int
        } else {
            0int
        },
    decreases v,
{
    if v > 0 {
        lemma_edge_seq_update_len(g, g2, from, v - 1);
    }
}

/// What `Graph0`'s well-formedness gives its callers.
pub proof fn lemma_graph0_wf(g: &Graph0)
    requires
        g.wf(),
    ensures
        graph_wf(g.succ_view()),
        g.edge_count_spec() == edge_seq(g.succ_view()).len(),
        g.edge_count_spec() <= usize::MAX,
{
}

impl Graph for Graph0 {
    closed spec fn succ_view(&self) -> Seq<Seq<usize>> {
        rows_view(self.succ@)
    }

    fn size(&self) -> (n: usize) {
        self.succ.len()
    }

    fn edges(&self) -> (e: Vec<(usize, usize)>) {
        let ghost g = self.succ_view();
        let mut out: Vec<(usize, usize)> = Vec::new();
        let n = self.succ.len();
        let mut v: usize = 0;
        while v < n
            invariant
                v <= n,
                n as int == g.len(),
                g == rows_view(self.succ@),
                out@ == edge_seq_upto(g, v as int),
            decreases n - v,
        {
            let row_len = self.succ[v].len();
            let mut t: usize = 0;
            while t < row_len
                invariant
                    t <= row_len,
                    v < n,
                    n as int == g.len(),
                    g == rows_view(self.succ@),
                    row_len == g[v as int].len(),
                    out@ == edge_seq_upto(g, v as int) + pair_row(v, g[v as int]).take(t as int),
                decreases row_len - t,
            {
                let w = self.succ[v][t];
                out.push((v, w));
                proof {
                    assert(pair_row(v, g[v as int]).take(t + 1) =~= pair_row(
                        v,
                        g[v as int],
                    ).take(t as int).push((v, w)));
                }
                t = t + 1;
            }
            proof {
                assert(pair_row(v, g[v as int]).take(row_len as int) =~= pair_row(v, g[v as int]));
                assert(edge_seq_upto(g, v as int + 1) == edge_seq_upto(g, v as int) + pair_row(
                    v,
                    g[v as int],
                ));
            }
            v = v + 1;
        }
        out
    }

    fn successors(&self, v: usize) -> (s: Vec<usize>) {
        copy_usize_vec(&self.succ[v])
    }
}

/// An element-for-element copy of a vector of node indices.
pub fn copy_usize_vec(v: &Vec<usize>) -> (r: Vec<usize>)
    ensures
        r@ == v@,
{
    let mut r: Vec<usize> = Vec::new();
    let mut i: usize = 0;
    while i < v.len()
        invariant
            i <= v@.len(),
            r@ == v@.take(i as int),
        decreases v@.len() - i,
    {
        r.push(v[i]);
        proof {
            assert(v@.take(i + 1) =~= v@.take(i as int).push(v@[i as int]));
        }
        i = i + 1;
    }
    proof {
        assert(v@.take(v@.len() as int) =~= v@);
    }
    r
}

/// Every pair of the edge list names its row and a member of that row.
pub proof fn lemma_edge_seq_elem(g: Seq<Seq<usize>>, v: int)
    requires
        0 <= v <= usize::MAX,
    ensures
        forall|t: int| 0 <= t < edge_seq_upto(g, v).len() ==> {
            let p = #[trigger] edge_seq_upto(g, v)[t];
            (p.0 as int) < v && 0 <= (p.0 as int) && g[p.0 as int].contains(p.1)
        },
    decreases v,
{
    if v > 0 {
        lemma_edge_seq_elem(g, v - 1);
        let pre = edge_seq_upto(g, v - 1);
        let row = pair_row((v - 1) as usize, g[v - 1]);
        assert forall|t: int| 0 <= t < edge_seq_upto(g, v).len() implies {
            let p = #[trigger] edge_seq_upto(g, v)[t];
            (p.0 as int) < v && 0 <= (p.0 as int) && g[p.0 as int].contains(p.1)
        } by {
            assert(edge_seq_upto(g, v) == pre + row);
            if t < pre.len() {
                assert(edge_seq_upto(g, v)[t] == pre[t]);
            } else {
                let p = edge_seq_upto(g, v)[t];
                assert(p == row[t - pre.len()]);
                assert(p.0 == (v - 1) as usize);
                assert(p.1 == g[v - 1][t - pre.len()]);
                assert(g[p.0 as int][t - pre.len()] == p.1);
            }
        }
    }
}

/// One row's edge shows up in every long enough edge-list prefix.
pub proof fn lemma_row_in_edge_seq(g: Seq<Seq<usize>>, v: usize, w: usize, u: int)
    requires
        0 <= (v as int) < u,
        g[v as int].contains(w),
    ensures
        edge_seq_upto(g, u).contains((v, w)),
    decreases u,
{
    if u == v as int + 1 {
        let t = choose|t: int| 0 <= t < g[v as int].len() && g[v as int][t] == w;
        let pre = edge_seq_upto(g, v as int);
        assert(edge_seq_upto(g, u)[pre.len() + t] == pair_row(v, g[v as int])[t]);
    } else {
        lemma_row_in_edge_seq(g, v, w, u - 1);
        let t = choose|t: int|
            0 <= t < edge_seq_upto(g, u - 1).len() && (#[trigger] edge_seq_upto(g, u - 1)[t])
                == (v, w);
        assert(edge_seq_upto(g, u)[t] == (v, w));
    }
}

/// The edge list holds exactly the graph's edges.
pub proof fn lemma_edge_seq_has_edge(g: Seq<Seq<usize>>, v: usize, w: usize)
    requires
        g.len() <= usize::MAX,
    ensures
        edge_seq(g).contains((v, w)) <==> has_edge(g, v, w),
{
    if edge_seq(g).contains((v, w)) {
        lemma_edge_seq_elem(g, g.len() as int);
        let t = choose|t: int| 0 <= t < edge_seq(g).len() && (#[trigger] edge_seq(g)[t]) == (
            v,
            w,
        );
        assert(edge_seq_upto(g, g.len() as int)[t] == (v, w));
    }
    if has_edge(g, v, w) {
        lemma_row_in_edge_seq(g, v, w, g.len() as int);
    }
}

/// A duplicate-free sequence of numbers below `n` has at most `n` entries.
pub proof fn lemma_no_dup_below_len(s: Seq<usize>, n: int)
    requires
        s.no_duplicates(),
        nodes_below(s, n),
        0 <= n,
    ensures
        s.len() <= n,
    decreases n,
{
    if s.len() > 0 {
        assert(s[0] < n);
        if exists|i: int| 0 <= i < s.len() && s[i] as int == n - 1 {
            let i0 = choose|i: int| 0 <= i < s.len() && s[i] as int == n - 1;
            let s2 = s.remove(i0);
            assert forall|i1: int, i2: int|
                0 <= i1 < s2.len() && 0 <= i2 < s2.len() && i1 != i2 implies s2[i1] != s2[i2] by {
                let j1: int = if i1 < i0 { i1 } else { i1 + 1 };
                let j2: int = if i2 < i0 { i2 } else { i2 + 1 };
                assert(s2[i1] == s[j1]);
                assert(s2[i2] == s[j2]);
            }
            assert forall|i: int| 0 <= i < s2.len() implies ((#[trigger] s2[i]) as int) < n - 1 by {
                let j: int = if i < i0 { i } else { i + 1 };
                assert(s2[i] == s[j]);
                assert(j != i0);
            }
            lemma_no_dup_below_len(s2, n - 1);
        } else {
            assert forall|i: int| 0 <= i < s.len() implies ((#[trigger] s[i]) as int) < n - 1 by {
                if s[i] as int == n - 1 {
                    assert(exists|t: int| 0 <= t < s.len() && s[t] as int == n - 1);
                }
            }
            lemma_no_dup_below_len(s, n - 1);
        }
    }
}

/// Moving the pool's last element to the end of the placed prefix keeps the
/// two sequences jointly duplicate-free.
pub proof fn lemma_move_pop_push(l0: Seq<usize>, pool: Seq<usize>)
    requires
        (l0 + pool).no_duplicates(),
        pool.len() > 0,
    ensures
        (l0.push(pool.last()) + pool.drop_last()).no_duplicates(),
        !l0.contains(pool.last()),
{
    let a = pool.last();
    let c1 = l0 + pool;
    let c2 = l0.push(a) + pool.drop_last();
    let ll = l0.len() as int;
    let ml = pool.len() as int;
    assert(c2.len() == c1.len());
    assert forall|i: int| 0 <= i < c2.len() implies c2[i] == c1[
        if i < ll { i } else if i == ll { ll + ml - 1 } else { i - 1 }
    ] by {
        if i < ll {
            assert(c2[i] == l0[i]);
            assert(c1[i] == l0[i]);
        } else if i == ll {
            assert(c2[i] == l0.push(a)[ll]);
            assert(c1[ll + ml - 1] == pool[ml - 1]);
        } else {
            assert(c2[i] == pool.drop_last()[i - ll - 1]);
            assert(c1[i - 1] == pool[i - 1 - ll]);
        }
    }
    assert forall|i1: int, i2: int|
        0 <= i1 < c2.len() && 0 <= i2 < c2.len() && i1 != i2 implies c2[i1] != c2[i2] by {
        let j1: int = if i1 < ll { i1 } else if i1 == ll { ll + ml - 1 } else { i1 - 1 };
        let j2: int = if i2 < ll { i2 } else if i2 == ll { ll + ml - 1 } else { i2 - 1 };
        assert(c2[i1] == c1[j1]);
        assert(c2[i2] == c1[j2]);
        assert(j1 != j2);
    }
    if l0.contains(a) {
        let q = choose|q: int| 0 <= q < l0.len() && l0[q] == a;
        assert(c1[q] == a);
        assert(c1[ll + ml - 1] == a);
    }
}

pub proof fn lemma_concat_contains<A>(s1: Seq<A>, s2: Seq<A>, x: A)
    ensures
        (s1 + s2).contains(x) <==> (s1.contains(x) || s2.contains(x)),
{
    if s1.contains(x) {
        let i = choose|i: int| 0 <= i < s1.len() && s1[i] == x;
        assert((s1 + s2)[i] == x);
    }
    if s2.contains(x) {
        let i = choose|i: int| 0 <= i < s2.len() && s2[i] == x;
        assert((s1 + s2)[s1.len() + i] == x);
    }
    if (s1 + s2).contains(x) {
        let i = choose|i: int| 0 <= i < (s1 + s2).len() && (s1 + s2)[i] == x;
        if i < s1.len() {
            assert(s1[i] == x);
        } else {
            assert(s2[i - s1.len()] == x);
        }
    }
}

pub proof fn lemma_push_no_dup<A>(s: Seq<A>, x: A)
    requires
        s.no_duplicates(),
        !s.contains(x),
    ensures
        s.push(x).no_duplicates(),
{
    assert forall|i1: int, i2: int|
        0 <= i1 < s.push(x).len() && 0 <= i2 < s.push(x).len() && i1 != i2 implies s.push(x)[i1]
        != s.push(x)[i2] by {
        if i1 < s.len() && i2 < s.len() {
        } else if i1 < s.len() {
            assert(s.push(x)[i1] == s[i1]);
            if s[i1] == x {
                assert(s.contains(x));
            }
        } else {
            assert(s.push(x)[i2] == s[i2]);
            if s[i2] == x {
                assert(s.contains(x));
            }
        }
    }
}

/// A node whose predecessors all stand in `l` may be appended: the longer
/// prefix still respects every edge.
pub proof fn lemma_topo_push(g: Seq<Seq<usize>>, l: Seq<usize>, x: usize)
    requires
        topo_ok(g, l),
        forall|v: usize| #[trigger] has_edge(g, v, x) ==> l.contains(v),
    ensures
        topo_ok(g, l.push(x)),
{
    let l2 = l.push(x);
    assert forall|p: int, v: usize|
        0 <= p < l2.len() && #[trigger] has_edge(g, v, l2[p]) implies exists|q: int|
            0 <= q < p && l2[q] == v by {
        if p < l.len() {
            assert(l2[p] == l[p]);
            let q = choose|q: int| 0 <= q < p && l[q] == v;
            assert(l2[q] == v);
        } else {
            assert(l2[p] == x);
            assert(l.contains(v));
            let q = choose|q: int| 0 <= q < l.len() && l[q] == v;
            assert(l2[q] == v);
        }
    }
}

/// Exchanging two slots keeps a sequence duplicate-free, keeps its
/// multiset of entries, and keeps every entry in range.
pub proof fn lemma_swap_props(s: Seq<usize>, x: int, y: int, n: int)
    requires
        0 <= x < s.len(),
        0 <= y < s.len(),
        s.no_duplicates(),
        nodes_below(s, n),
    ensures
        s.update(x, s[y]).update(y, s[x]).no_duplicates(),
        nodes_below(s.update(x, s[y]).update(y, s[x]), n),
        s.update(x, s[y]).update(y, s[x]).to_multiset() == s.to_multiset(),
        s.update(x, s[y]).update(y, s[x]).len() == s.len(),
{
    let s2 = s.update(x, s[y]).update(y, s[x]);
    assert forall|i1: int, i2: int|
        0 <= i1 < s2.len() && 0 <= i2 < s2.len() && i1 != i2 implies s2[i1] != s2[i2] by {
        let j1: int = if i1 == x { y } else if i1 == y { x } else { i1 };
        let j2: int = if i2 == x { y } else if i2 == y { x } else { i2 };
        assert(s2[i1] == s[j1]);
        assert(s2[i2] == s[j2]);
    }
    assert forall|i: int| 0 <= i < s2.len() implies (#[trigger] s2[i]) < n by {
        let j: int = if i == x { y } else if i == y { x } else { i };
        assert(s2[i] == s[j]);
    }
    if x == y {
        assert(s2 =~= s);
    } else {
        broadcast use vstd::seq_lib::group_to_multiset_ensures;
        vstd::seq_lib::to_multiset_update(s, x, s[y]);
        vstd::seq_lib::to_multiset_update(s.update(x, s[y]), y, s[x]);
        assert(s.update(x, s[y])[y] == s[y]);
        assert(s2.to_multiset() =~= s.to_multiset());
    }
}

/// Exchange two slots of a vector of machine words.
pub fn vec_swap(v: &mut Vec<usize>, x: usize, y: usize)
    requires
        (x as int) < old(v)@.len(),
        (y as int) < old(v)@.len(),
    ensures
        final(v)@ == old(v)@.update(x as int, old(v)@[y as int]).update(
            y as int,
            old(v)@[x as int],
        ),
{
    let a = v[x];
    let b = v[y];
    v.set(x, b);
    v.set(y, a);
}

/// Whoever is placed, the remaining in-degree never exceeds the full one.
pub proof fn lemma_ic_le_empty(g: Seq<Seq<usize>>, placed: Seq<usize>, w: usize, v: int)
    ensures
        ic_upto(g, placed, w, v) <= ic_upto(g, Seq::<usize>::empty(), w, v),
    decreases v,
{
    if v > 0 {
        lemma_ic_le_empty(g, placed, w, v - 1);
    }
}

/// A node all of whose predecessors are placed has remaining in-degree
/// zero.
pub proof fn lemma_ic_all_placed(g: Seq<Seq<usize>>, placed: Seq<usize>, w: usize, v: int)
    requires
        0 <= v <= usize::MAX,
        forall|v0: usize| (v0 as int) < v && g[v0 as int].contains(w) ==> placed.contains(v0),
    ensures
        ic_upto(g, placed, w, v) == 0,
    decreases v,
{
    if v > 0 {
        lemma_ic_all_placed(g, placed, w, v - 1);
        let v0 = (v - 1) as usize;
        if !placed.contains(v0) {
            lemma_occ_contains(g[v - 1], w);
        }
    }
}

/// Moving any one pool element to the end of the placed prefix keeps the
/// two sequences jointly duplicate-free.
pub proof fn lemma_move_take(l0: Seq<usize>, pool: Seq<usize>, c: int)
    requires
        (l0 + pool).no_duplicates(),
        0 <= c < pool.len(),
    ensures
        (l0.push(pool[c]) + pool.update(c, pool.last()).drop_last()).no_duplicates(),
        !l0.contains(pool[c]),
{
    let a = pool[c];
    let c1 = l0 + pool;
    let q = pool.update(c, pool.last()).drop_last();
    let c2 = l0.push(a) + q;
    let ll = l0.len() as int;
    let ml = pool.len() as int;
    assert forall|i: int| 0 <= i < c2.len() implies c2[i] == c1[
        if i < ll {
            i
        } else if i == ll {
            ll + c
        } else if i - ll - 1 == c {
            ll + ml - 1
        } else {
            i - 1
        }
    ] by {
        if i < ll {
            assert(c2[i] == l0[i]);
        } else if i == ll {
            assert(c2[i] == l0.push(a)[ll]);
            assert(c1[ll + c] == pool[c]);
        } else if i - ll - 1 == c {
            assert(c2[i] == q[c]);
            assert(q[c] == pool.last());
            assert(c1[ll + ml - 1] == pool[ml - 1]);
        } else {
            assert(c2[i] == q[i - ll - 1]);
            assert(q[i - ll - 1] == pool[i - ll - 1]);
            assert(c1[i - 1] == pool[i - 1 - ll]);
        }
    }
    assert forall|i1: int, i2: int|
        0 <= i1 < c2.len() && 0 <= i2 < c2.len() && i1 != i2 implies c2[i1] != c2[i2] by {
        let j1: int = if i1 < ll {
            i1
        } else if i1 == ll {
            ll + c
        } else if i1 - ll - 1 == c {
            ll + ml - 1
        } else {
            i1 - 1
        };
        let j2: int = if i2 < ll {
            i2
        } else if i2 == ll {
            ll + c
        } else if i2 - ll - 1 == c {
            ll + ml - 1
        } else {
            i2 - 1
        };
        assert(c2[i1] == c1[j1]);
        assert(c2[i2] == c1[j2]);
        assert(j1 != j2);
    }
    if l0.contains(a) {
        let qq = choose|qq: int| 0 <= qq < l0.len() && l0[qq] == a;
        assert(c1[qq] == a);
        assert(c1[ll + c] == a);
    }
}

/// Removing one entry keeps a sequence duplicate-free.
pub proof fn lemma_remove_no_dup<A>(s: Seq<A>, p: int)
    requires
        s.no_duplicates(),
        0 <= p < s.len(),
    ensures
        s.remove(p).no_duplicates(),
        forall|x: A| s.remove(p).contains(x) ==> s.contains(x),
{
    let s2 = s.remove(p);
    assert forall|i1: int, i2: int|
        0 <= i1 < s2.len() && 0 <= i2 < s2.len() && i1 != i2 implies s2[i1] != s2[i2] by {
        let j1: int = if i1 < p {
            i1
        } else {
            i1 + 1
        };
        let j2: int = if i2 < p {
            i2
        } else {
            i2 + 1
        };
        assert(s2[i1] == s[j1]);
        assert(s2[i2] == s[j2]);
    }
    assert forall|x: A| s2.contains(x) implies s.contains(x) by {
        if s2.contains(x) {
            let i = choose|i: int| 0 <= i < s2.len() && s2[i] == x;
            let j: int = if i < p {
                i
            } else {
                i + 1
            };
            assert(s[j] == x);
        }
    }
}

/// Disjoint duplicate-free sequences concatenate to a duplicate-free one.
pub proof fn lemma_concat_no_dup_intro<A>(s1: Seq<A>, s2: Seq<A>)
    requires
        s1.no_duplicates(),
        s2.no_duplicates(),
        forall|x: A| s1.contains(x) ==> !s2.contains(x),
    ensures
        (s1 + s2).no_duplicates(),
{
    let c = s1 + s2;
    assert forall|i1: int, i2: int|
        0 <= i1 < c.len() && 0 <= i2 < c.len() && i1 != i2 implies c[i1] != c[i2] by {
        if i1 < s1.len() && i2 < s1.len() {
            assert(c[i1] == s1[i1] && c[i2] == s1[i2]);
        } else if i1 >= s1.len() && i2 >= s1.len() {
            assert(c[i1] == s2[i1 - s1.len()] && c[i2] == s2[i2 - s1.len()]);
        } else if i1 < s1.len() {
            assert(c[i1] == s1[i1] && c[i2] == s2[i2 - s1.len()]);
            if c[i1] == c[i2] {
                assert(s1.contains(c[i1]));
                assert(s2.contains(c[i2]));
            }
        } else {
            assert(c[i2] == s1[i2] && c[i1] == s2[i1 - s1.len()]);
            if c[i1] == c[i2] {
                assert(s1.contains(c[i2]));
                assert(s2.contains(c[i1]));
            }
        }
    }
}

/// A complete edge-respecting order: a permutation of all nodes in which
/// every edge points forward.
pub open spec fn full_topo(g: Seq<Seq<usize>>, ord: Seq<usize>) -> bool {
    &&& ord.len() == g.len()
    &&& ord.no_duplicates()
    &&& nodes_below(ord, g.len() as int)
    &&& topo_ok(g, ord)
}

/// The graph admits some complete order: it is acyclic.
pub open spec fn acyclic(g: Seq<Seq<usize>>) -> bool {
    exists|ord: Seq<usize>| #[trigger] full_topo(g, ord)
}

/// A duplicate-free sequence holding every number below `n` has at least
/// `n` entries.
pub proof fn lemma_contains_all_len(s: Seq<usize>, n: int)
    requires
        s.no_duplicates(),
        0 <= n <= usize::MAX,
        forall|w: usize| (w as int) < n ==> s.contains(w),
    ensures
        s.len() >= n,
    decreases n,
{
    if n > 0 {
        let wlast = (n - 1) as usize;
        assert(s.contains(wlast));
        let idx = choose|idx: int| 0 <= idx < s.len() && s[idx] == wlast;
        let s2 = s.remove(idx);
        lemma_remove_no_dup(s, idx);
        assert(s2 == s.subrange(0, idx) + s.subrange(idx + 1, s.len() as int));
        assert forall|w: usize| (w as int) < n - 1 implies s2.contains(w) by {
            assert(s.contains(w));
            let i = choose|i: int| 0 <= i < s.len() && s[i] == w;
            if i < idx {
                assert(s2[i] == s.subrange(0, idx)[i]);
                assert(s2[i] == w);
            } else {
                assert(i != idx);
                assert(s2[i - 1] == s.subrange(idx + 1, s.len() as int)[i - idx - 1]);
                assert(s2[i - 1] == w);
            }
        }
        lemma_contains_all_len(s2, n - 1);
    }
}

/// A duplicate-free sequence of numbers below `n` that is too short to be
/// a permutation misses some number.
pub proof fn lemma_missing_node(s: Seq<usize>, n: int)
    requires
        s.no_duplicates(),
        nodes_below(s, n),
        0 <= n <= usize::MAX,
        s.len() < n,
    ensures
        exists|w: usize| (w as int) < n && !s.contains(w),
{
    if forall|w: usize| (w as int) < n ==> s.contains(w) {
        lemma_contains_all_len(s, n);
    }
}

/// A duplicate-free sequence of `n` numbers below `n` holds each of them.
pub proof fn lemma_perm_contains(s: Seq<usize>, n: int, w: usize)
    requires
        s.no_duplicates(),
        nodes_below(s, n),
        0 <= n <= usize::MAX,
        s.len() == n,
        (w as int) < n,
    ensures
        s.contains(w),
{
    if !s.contains(w) {
        let s2 = s.map_values(
            |x: usize|
                if x > w {
                    (x - 1) as usize
                } else {
                    x
                },
        );
        assert forall|i: int| 0 <= i < s.len() implies s[i] != w by {
            if s[i] == w {
                assert(s.contains(w));
            }
        }
        assert forall|i1: int, i2: int|
            0 <= i1 < s2.len() && 0 <= i2 < s2.len() && i1 != i2 implies s2[i1] != s2[i2] by {
            assert(s2[i1] == if s[i1] > w {
                (s[i1] - 1) as usize
            } else {
                s[i1]
            });
            assert(s2[i2] == if s[i2] > w {
                (s[i2] - 1) as usize
            } else {
                s[i2]
            });
            assert(s[i1] != w && s[i2] != w);
        }
        assert forall|i: int| 0 <= i < s2.len() implies ((#[trigger] s2[i]) as int) < n - 1 by {
            assert(s2[i] == if s[i] > w {
                (s[i] - 1) as usize
            } else {
                s[i]
            });
            assert(s[i] != w);
        }
        lemma_no_dup_below_len(s2, n - 1);
    }
}

/// Among the positions of `ord` holding a node outside `placed` there is a
/// first one.
pub proof fn lemma_min_witness(ord: Seq<usize>, placed: Seq<usize>, p: int)
    requires
        0 <= p < ord.len(),
        !placed.contains(ord[p]),
    ensures
        exists|p0: int|
            0 <= p0 < ord.len() && !placed.contains(#[trigger] ord[p0]) && forall|q: int|
                0 <= q < p0 ==> placed.contains(ord[q]),
    decreases p,
{
    if exists|q: int| 0 <= q < p && !placed.contains(#[trigger] ord[q]) {
        let q = choose|q: int| 0 <= q < p && !placed.contains(#[trigger] ord[q]);
        lemma_min_witness(ord, placed, q);
    } else {
        assert(!placed.contains(ord[p]) && forall|q: int| 0 <= q < p ==> placed.contains(ord[q]));
    }
}

/// A state where every unplaced node still has a positive remaining
/// in-degree admits no complete order: the first unplaced node of such an
/// order would have all its predecessors placed.
pub proof fn lemma_stuck_not_acyclic(gv: Seq<Seq<usize>>, placed: Seq<usize>)
    requires
        placed.no_duplicates(),
        nodes_below(placed, gv.len() as int),
        topo_ok(gv, placed),
        gv.len() <= usize::MAX,
        placed.len() < gv.len(),
        forall|w: usize|
            (w as int) < gv.len() && !placed.contains(w) ==> in_count(gv, placed, w) > 0,
    ensures
        !acyclic(gv),
{
    if acyclic(gv) {
        let ord = choose|ord: Seq<usize>| #[trigger] full_topo(gv, ord);
        lemma_missing_node(placed, gv.len() as int);
        let w0 = choose|w: usize| (w as int) < gv.len() && !placed.contains(w);
        lemma_perm_contains(ord, gv.len() as int, w0);
        let pw = choose|pw: int| 0 <= pw < ord.len() && ord[pw] == w0;
        lemma_min_witness(ord, placed, pw);
        let p0 = choose|p0: int|
            0 <= p0 < ord.len() && !placed.contains(#[trigger] ord[p0]) && forall|q: int|
                0 <= q < p0 ==> placed.contains(ord[q]);
        let wm = ord[p0];
        assert forall|v: usize|
            (v as int) < gv.len() && gv[v as int].contains(wm) implies placed.contains(v) by {
            assert(has_edge(gv, v, ord[p0]));
            let q = choose|q: int| 0 <= q < p0 && ord[q] == v;
        }
        lemma_ic_all_placed(gv, placed, wm, gv.len() as int);
    }
}

/// A prefix of an edge-respecting order still respects every edge.
pub proof fn lemma_topo_drop_last(g: Seq<Seq<usize>>, l: Seq<usize>)
    requires
        topo_ok(g, l),
        l.len() > 0,
    ensures
        topo_ok(g, l.drop_last()),
{
    let l2 = l.drop_last();
    assert forall|p: int, v: usize|
        0 <= p < l2.len() && #[trigger] has_edge(g, v, l2[p]) implies exists|q: int|
            0 <= q < p && l2[q] == v by {
        assert(l2[p] == l[p]);
        let q = choose|q: int| 0 <= q < p && l[q] == v;
        assert(l2[q] == v);
    }
}

} // verus!
