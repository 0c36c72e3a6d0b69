use vstd::prelude::*;
use crate::graph::{
    Graph, copy_usize_vec, edge_seq, edge_seq_upto, graph_wf, lemma_edge_seq_empty,
    lemma_edge_seq_update_push, pair_row, rows_view,
};

verus! {

/// A second adjacency-list DAG backend with the same shape as `Graph0`;
/// kept as its own type so that callers can choose either.
#[derive(Debug, Clone)]
pub struct SimpleGraph {
    succ: Vec<Vec<usize>>,
    edge_count: usize,
}

impl SimpleGraph {
    pub closed spec fn wf(&self) -> bool {
        &&& graph_wf(rows_view(self.succ@))
        &&& self.edge_count as nat == edge_seq(rows_view(self.succ@)).len()
    }

    pub closed spec fn edge_count_spec(&self) -> nat {
        self.edge_count as nat
    }

    /// A graph on `size` nodes with no edges yet.
    pub fn new(size: usize) -> (g: SimpleGraph)
        ensures
            g.wf(),
            g.succ_view().len() == size,
            forall|v: int| 0 <= v < size ==> (#[trigger] g.succ_view()[v]).len() == 0,
            g.edge_count_spec() == 0,
    {
        let mut succ: Vec<Vec<usize>> = Vec::new();
        let mut i: usize = 0;
        while i < size
            invariant
                i <= size,
                succ@.len() == i as int,
                forall|v: int| 0 <= v < i ==> (#[trigger] succ@[v])@.len() == 0,
            decreases size - i,
        {
            succ.push(Vec::new());
            i = i + 1;
        }
        proof {
            lemma_edge_seq_empty(rows_view(succ@), size as int);
        }
        SimpleGraph { succ, edge_count: 0 }
    }

    /// The number of edges added so far.
    pub fn edge_count(&self) -> (m: usize)
        ensures
            m as nat == self.edge_count_spec(),
    {
        self.edge_count
    }

    /// Record the edge `(from, to)`.
    pub fn add_edge(&mut self, from: usize, to: usize)
        requires
            (from as int) < old(self).succ_view().len(),
            (to as int) < old(self).succ_view().len(),
            old(self).edge_count_spec() < usize::MAX,
            old(self).wf(),
        ensures
            final(self).wf(),
            final(self).succ_view() == old(self).succ_view().update(
                from as int,
                old(self).succ_view()[from as int].push(to),
            ),
            final(self).edge_count_spec() == old(self).edge_count_spec() + 1,
    {
        let ghost old_rows = rows_view(self.succ@);
        let mut row = self.succ.remove(from);
        row.push(to);
        self.succ.insert(from, row);
        self.edge_count = self.edge_count + 1;
        proof {
            assert(rows_view(self.succ@) =~= old_rows.update(
                from as int,
                old_rows[from as int].push(to),
            ));
            lemma_edge_seq_update_push(old_rows, from, to);
        }
    }
}

/// What `SimpleGraph`'s well-formedness gives its callers.
pub proof fn lemma_simple_wf(g: &SimpleGraph)
    requires
        g.wf(),
    ensures
        graph_wf(g.succ_view()),
{
}

impl Graph for SimpleGraph {
    closed spec fn succ_view(&self) -> Seq<Seq<usize>> {
        rows_view(self.succ@)
    }

    fn size(&self) -> (n: usize) {
        self.succ.len()
    }

    fn edges(&self) -> (e: Vec<(usize, usize)>) {
        let ghost g = self.succ_view();
        let mut out: Vec<(usize, usize)> = Vec::new();
        let n = self.succ.len();
        let mut v: usize = 0;
        while v < n
            invariant
                v <= n,
                n as int == g.len(),
                g == rows_view(self.succ@),
                out@ == edge_seq_upto(g, v as int),
            decreases n - v,
        {
            let row_len = self.succ[v].len();
            let mut t: usize = 0;
            while t < row_len
                invariant
                    t <= row_len,
                    v < n,
                    n as int == g.len(),
                    g == rows_view(self.succ@),
                    row_len == g[v as int].len(),
                    out@ == edge_seq_upto(g, v as int) + pair_row(v, g[v as int]).take(t as int),
                decreases row_len - t,
            {
                let w = self.succ[v][t];
                out.push((v, w));
                proof {
                    assert(pair_row(v, g[v as int]).take(t + 1) =~= pair_row(
                        v,
                        g[v as int],
                    ).take(t as int).push((v, w)));
                }
                t = t + 1;
            }
            proof {
                assert(pair_row(v, g[v as int]).take(row_len as int) =~= pair_row(v, g[v as int]));
                assert(edge_seq_upto(g, v as int + 1) == edge_seq_upto(g, v as int) + pair_row(
                    v,
                    g[v as int],
                ));
            }
            v = v + 1;
        }
        out
    }

    fn successors(&self, v: usize) -> (s: Vec<usize>) {
        copy_usize_vec(&self.succ[v])
    }
}

} // verus!
