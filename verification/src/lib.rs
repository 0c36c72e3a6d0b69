pub mod backtracking;
pub mod bits;
pub mod glp;
pub mod graph;
pub mod gray;
pub mod nrpr;
pub mod sched;

use vstd::prelude::*;
use crate::backtracking::{
    lemma_oracle_count_le_fuel, lemma_order_bounded, oracle_run_count, Traversals,
};
use crate::nrpr::seed_pool_upto;
use crate::glp::{deltas, GLPSubProc};
use crate::graph::{acyclic, full_topo, Graph, Graph0};
use crate::nrpr::{delta_run_len, init_view, lemma_nrpr_inv, lemma_run_len_le_fuel, nrpr_step, NRPR};
use crate::sched::{thread_init, thread_sel, thread_step};

verus! {

/// Count the topological orders of `g` with the reference backtracking
/// enumerator.  A step budget bounds the loop; it starts beyond any
/// enumeration that could be stepped through in practice.  The empty
/// graph counts exactly its one trivial order; an acyclic graph with
/// nodes counts at least one order.
pub fn count_backtracking(g: Graph0) -> (total: usize)
    requires
        g.wf(),
    ensures
        total as nat == oracle_run_count(
            g.succ_view(),
            Seq::<usize>::empty(),
            Seq::<usize>::empty(),
            seed_pool_upto(g.succ_view(), g.succ_view().len() as int),
            true,
            usize::MAX as nat,
        ),
        g.succ_view().len() == 0 ==> total == 1,
        acyclic(g.succ_view()) && g.succ_view().len() > 0 ==> total >= 1,
{
    let ghost gv = g.succ_view();
    let mut t = Traversals::new(g);
    let ghost target = oracle_run_count(
        gv,
        Seq::<usize>::empty(),
        Seq::<usize>::empty(),
        seed_pool_upto(gv, gv.len() as int),
        true,
        usize::MAX as nat,
    );
    proof {
        assert(t.order_spec() =~= Seq::<usize>::empty());
        assert(t.choices_spec() =~= Seq::<usize>::empty());
        lemma_oracle_count_le_fuel(
            gv,
            Seq::<usize>::empty(),
            Seq::<usize>::empty(),
            seed_pool_upto(gv, gv.len() as int),
            true,
            usize::MAX as nat,
        );
    }
    let mut total: usize = 0;
    let mut fuel: usize = usize::MAX;
    while fuel > 0
        invariant
            t.wf(),
            t.graph_view() == gv,
            gv == g.succ_view(),
            total as int == usize::MAX as int - fuel as int,
            target == oracle_run_count(
                gv,
                Seq::<usize>::empty(),
                Seq::<usize>::empty(),
                seed_pool_upto(gv, gv.len() as int),
                true,
                usize::MAX as nat,
            ),
            total as nat + oracle_run_count(
                gv,
                t.order_spec(),
                t.choices_spec(),
                t.pool_spec(),
                t.fresh_spec(),
                fuel as nat,
            ) == target,
            gv.len() == 0 ==> ((total == 0 && t.fresh_spec()) || (total == 1
                && !t.fresh_spec())),
            acyclic(gv) && gv.len() > 0 ==> (total >= 1 || (t.order_spec().len() == 0
                && t.choices_spec().len() == 0 && t.fresh_spec())),
        decreases fuel,
    {
        fuel = fuel - 1;
        let ghost spent_pre = t.search_spent();
        let ghost so = t.order_spec();
        let ghost sc = t.choices_spec();
        let ghost sp = t.pool_spec();
        let ghost sf = t.fresh_spec();
        let ghost fcur = fuel as nat + 1;
        proof {
            if gv.len() == 0 {
                assert(full_topo(gv, Seq::<usize>::empty()));
                assert(acyclic(gv));
                lemma_order_bounded(&t);
            }
        }
        match t.next() {
            Option::Some(_) => {
                proof {
                    if gv.len() == 0 {
                        assert(!spent_pre);
                        assert(total == 0);
                    }
                    assert(oracle_run_count(gv, so, sc, sp, sf, fcur) == 1 + oracle_run_count(
                        gv,
                        t.order_spec(),
                        t.choices_spec(),
                        t.pool_spec(),
                        false,
                        (fcur - 1) as nat,
                    ));
                }
                total = total + 1;
            },
            Option::None => {
                proof {
                    if acyclic(gv) && gv.len() > 0 && total == 0 {
                        assert(!spent_pre);
                    }
                    if gv.len() == 0 {
                        assert(spent_pre);
                        assert(total == 1);
                    }
                    assert(oracle_run_count(gv, so, sc, sp, sf, fcur) == 0);
                }
                return total;
            },
        }
    }
    total
}

/// Count the topological orders of `g` by running the loopless enumeration
/// to exhaustion: exactly half the length of the modeled delta run, which
/// visits each order and its mirror image.
pub fn count_nrpr(g: Graph0) -> (r: usize)
    requires
        g.wf(),
        g.succ_view().len() * g.succ_view().len() <= usize::MAX,
    ensures
        r as nat == delta_run_len(
            init_view(g.succ_view()),
            thread_init(init_view(g.succ_view()).k + 1),
            usize::MAX as nat,
        ) / 2,
{
    proof {
        crate::graph::lemma_graph0_wf(&g);
    }
    let ghost gv = g.succ_view();
    let proc = NRPR::new(&g);
    proof {
        lemma_nrpr_inv(&proc);
    }
    let ghost target = delta_run_len(
        init_view(gv),
        thread_init(init_view(gv).k + 1),
        usize::MAX as nat,
    );
    let mut it = deltas(proc);
    proof {
        assert(it.ptrs_view() == thread_init(init_view(gv).k + 1));
        lemma_run_len_le_fuel(init_view(gv), thread_init(init_view(gv).k + 1), usize::MAX as nat);
    }
    let mut total: usize = 0;
    let mut fuel: usize = usize::MAX;
    while fuel > 0
        invariant
            it.wf(),
            gv == g.succ_view(),
            target == delta_run_len(
                init_view(gv),
                thread_init(init_view(gv).k + 1),
                usize::MAX as nat,
            ),
            total as nat + delta_run_len(it.proc_view().sp_view(), it.ptrs_view(), fuel as nat)
                == target,
            total as int + fuel as int <= usize::MAX,
        decreases fuel,
    {
        let ghost vcur = it.proc_view().sp_view();
        let ghost pcur = it.ptrs_view();
        let ghost fcur = fuel as nat;
        fuel = fuel - 1;
        match it.next() {
            Option::Some(_) => {
                proof {
                    assert(delta_run_len(vcur, pcur, fcur) == 1 + delta_run_len(
                        nrpr_step(vcur, thread_sel(pcur)).0,
                        thread_step(pcur, nrpr_step(vcur, thread_sel(pcur)).1),
                        (fcur - 1) as nat,
                    ));
                }
                total = total + 1;
            },
            Option::None => {
                proof {
                    assert(delta_run_len(vcur, pcur, fcur) == 0);
                }
                return total / 2;
            },
        }
    }
    total / 2
}

/// The same count, under the name the loopless strategy is known by.
pub fn count_nrpr_loop_free(g: Graph0) -> (r: usize)
    requires
        g.wf(),
        g.succ_view().len() * g.succ_view().len() <= usize::MAX,
    ensures
        r as nat == delta_run_len(
            init_view(g.succ_view()),
            thread_init(init_view(g.succ_view()).k + 1),
            usize::MAX as nat,
        ) / 2,
{
    count_nrpr(g)
}

} // verus!
