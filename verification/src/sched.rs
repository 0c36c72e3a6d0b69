use vstd::prelude::*;

verus! {

// Both scheduling strategies of the digit-counter engine are modelled here
// as pure step functions, so that their agreement can be stated and proved
// once, independently of the executable structs that implement them.
//
// A schedule is driven by the booleans that the sub-process hands back: at
// every step the scheduler picks a position, the sub-process answers with a
// flag (true: the position stays active; false: it has completed its local
// cycle, or, at the last position, the whole enumeration is over), and the
// scheduler updates its bookkeeping from that flag alone.

/// Scanning strategy, initial state: every position is eligible.
pub open spec fn scan_init(n: nat) -> Seq<bool> {
    Seq::new(n, |i: int| true)
}

/// The position the scanning strategy picks: the first eligible one, or
/// `f.len()` when none is left (the schedule then halts).
pub open spec fn scan_sel(f: Seq<bool>) -> int
    decreases f.len(),
{
    if f.len() == 0 {
        0
    } else if f[0] {
        0
    } else {
        1 + scan_sel(f.drop_first())
    }
}

/// One step of the scanning strategy: the picked slot stores the flag and
/// every lower slot becomes eligible again.
pub open spec fn scan_step(f: Seq<bool>, b: bool) -> Seq<bool> {
    let i = scan_sel(f);
    Seq::new(f.len(), |j: int| if j < i { true } else if j == i { b } else { f[j] })
}

/// Threaded strategy, initial state: every pointer is zero.
pub open spec fn thread_init(n: nat) -> Seq<usize> {
    Seq::new(n, |i: int| 0usize)
}

/// The position the threaded strategy picks: what its head pointer names;
/// the schedule halts once that is past the end.
pub open spec fn thread_sel(p: Seq<usize>) -> int {
    if p.len() == 0 {
        0
    } else {
        p[0] as int
    }
}

/// One step of the threaded strategy: relink the pointer of the picked
/// position, then point the head back at the lowest position.
pub open spec fn thread_step(p: Seq<usize>, b: bool) -> Seq<usize> {
    let n = p.len() as int;
    let i = thread_sel(p);
    let p1 = if b {
        p.update(i, 0usize)
    } else if i == n - 1 {
        p.update(i, p.len() as usize)
    } else if p[i + 1] == 0usize {
        p.update(i, (i + 1) as usize)
    } else {
        p.update(i, p[i + 1]).update(i + 1, 0usize)
    };
    if i > 0 {
        p1.update(0, 0usize)
    } else {
        p1
    }
}

/// Position `j` heads a run of spent positions `[j, p[j])`: all flags in the
/// run are off, interior pointers are cleared, and the run ends at an
/// eligible position or at the very end.
pub open spec fn block_ok(f: Seq<bool>, p: Seq<usize>, j: int) -> bool {
    &&& j < p[j] as int <= f.len()
    &&& forall|t: int| j <= t < p[j] as int ==> !(#[trigger] f[t])
    &&& (p[j] as int == f.len() || f[p[j] as int])
    &&& forall|t: int| j < t < p[j] as int ==> (#[trigger] p[t]) == 0usize
}

/// Some run of spent positions beginning at or before `j` reaches past `j`.
pub open spec fn covered(f: Seq<bool>, p: Seq<usize>, j: int) -> bool {
    exists|a: int| 0 <= a <= j && j < (#[trigger] p[a]) as int
}

/// The simulation invariant between the two strategies: every non-zero
/// pointer heads a well-formed run, and every spent position lies in one.
pub open spec fn blocks_ok(f: Seq<bool>, p: Seq<usize>) -> bool {
    &&& p.len() == f.len()
    &&& forall|j: int| 0 <= j < p.len() && (#[trigger] p[j]) != 0usize ==> block_ok(f, p, j)
    &&& forall|j: int| 0 <= j < f.len() && !(#[trigger] f[j]) ==> covered(f, p, j)
}

pub proof fn lemma_scan_sel_char(f: Seq<bool>)
    ensures
        0 <= scan_sel(f) <= f.len(),
        forall|j: int| 0 <= j < scan_sel(f) ==> !(#[trigger] f[j]),
        scan_sel(f) < f.len() ==> f[scan_sel(f)],
    decreases f.len(),
{
    if f.len() > 0 && !f[0] {
        lemma_scan_sel_char(f.drop_first());
        assert forall|j: int| 0 <= j < scan_sel(f) implies !(#[trigger] f[j]) by {
            if j > 0 {
                assert(!f.drop_first()[j - 1]);
            }
        }
        if scan_sel(f) < f.len() {
            assert(f.drop_first()[scan_sel(f) - 1] == f[scan_sel(f)]);
        }
    }
}

/// Under the invariant, an eligible position never carries a pointer.
proof fn lemma_head_zero_at_eligible(f: Seq<bool>, p: Seq<usize>, j: int)
    requires
        blocks_ok(f, p),
        0 <= j < f.len(),
        f[j],
    ensures
        p[j] == 0usize,
{
    if p[j] != 0usize {
        assert(block_ok(f, p, j));
        assert(!f[j]);
    }
}

/// Under the invariant both strategies pick the same position.
pub proof fn lemma_sel_agree(f: Seq<bool>, p: Seq<usize>)
    requires
        blocks_ok(f, p),
    ensures
        thread_sel(p) == scan_sel(f),
{
    lemma_scan_sel_char(f);
    let s = scan_sel(f);
    if f.len() == 0 {
    } else if f[0] {
        lemma_head_zero_at_eligible(f, p, 0);
    } else {
        assert(covered(f, p, 0));
        let a = choose|a: int| 0 <= a <= 0 && 0 < (#[trigger] p[a]) as int;
        assert(a == 0);
        assert(block_ok(f, p, 0));
        let c = p[0] as int;
        // everything below c is spent, and c itself is eligible or the end,
        // which pins the first eligible position to c
        assert forall|t: int| 0 <= t < c implies !(#[trigger] f[t]) by {}
        if s < c {
            assert(!f[s]);
        }
        if c < s {
            assert(c < f.len());
            assert(!f[c]);
        }
    }
}

/// Under the invariant, one step of each strategy preserves the invariant,
/// whichever flag the sub-process answers with.
pub proof fn lemma_blocks_step(f: Seq<bool>, p: Seq<usize>, b: bool)
    requires
        blocks_ok(f, p),
        scan_sel(f) < f.len(),
        f.len() <= usize::MAX,
    ensures
        blocks_ok(scan_step(f, b), thread_step(p, b)),
{
    lemma_scan_sel_char(f);
    lemma_sel_agree(f, p);
    let n = f.len() as int;
    let i = scan_sel(f);
    let f2 = scan_step(f, b);
    let p2 = thread_step(p, b);
    assert(f[i]);
    lemma_head_zero_at_eligible(f, p, i);
    // no run contains the picked position, and every run below it is the
    // head run [0, i)
    assert forall|j: int| 0 <= j < i && (#[trigger] p[j]) != 0usize implies j == 0 by {
        if j > 0 {
            assert(!f[j]);
            assert(covered(f, p, j));
            let a = choose|a: int| 0 <= a <= j && j < (#[trigger] p[a]) as int;
            assert(block_ok(f, p, a));
            assert(p[a] as int <= i);
            assert(p[j] == 0usize);
        }
    }
    if b {
        assert forall|j: int| 0 <= j < p2.len() && (#[trigger] p2[j]) != 0usize implies block_ok(
            f2,
            p2,
            j,
        ) by {
            assert(p2[j] == p[j]);
            assert(j != 0 && j != i);
            assert(block_ok(f, p, j));
            assert(j > i);
            assert(block_ok(f2, p2, j));
        }
        assert forall|j: int| 0 <= j < f2.len() && !(#[trigger] f2[j]) implies covered(
            f2,
            p2,
            j,
        ) by {
            assert(j > i);
            assert(covered(f, p, j));
            let a = choose|a: int| 0 <= a <= j && j < (#[trigger] p[a]) as int;
            assert(block_ok(f, p, a));
            assert(a > i);
            assert(p2[a] == p[a]);
        }
    } else if i == n - 1 {
        assert forall|j: int| 0 <= j < p2.len() && (#[trigger] p2[j]) != 0usize implies block_ok(
            f2,
            p2,
            j,
        ) by {
            if j == i {
                assert(p2[i] as int == n);
            } else {
                assert(p2[j] == p[j]);
                assert(j != 0);
                assert(block_ok(f, p, j));
                assert(j > i);
                assert(false);
            }
        }
        assert forall|j: int| 0 <= j < f2.len() && !(#[trigger] f2[j]) implies covered(
            f2,
            p2,
            j,
        ) by {
            assert(j == i);
            assert(p2[i] as int == n);
        }
    } else if p[i + 1] == 0usize {
        // the next position is eligible, else it would head or sit inside a
        // run that also contains the picked position
        assert(f[i + 1]) by {
            if !f[i + 1] {
                assert(covered(f, p, i + 1));
                let a = choose|a: int| 0 <= a <= i + 1 && i + 1 < (#[trigger] p[a]) as int;
                assert(block_ok(f, p, a));
                assert(!f[i]);
            }
        }
        assert forall|j: int| 0 <= j < p2.len() && (#[trigger] p2[j]) != 0usize implies block_ok(
            f2,
            p2,
            j,
        ) by {
            if j == i {
                assert(p2[i] as int == i + 1);
                assert(!f2[i]);
                assert(f2[i + 1]);
            } else {
                assert(p2[j] == p[j]);
                assert(j != 0);
                assert(block_ok(f, p, j));
                assert(j > i + 1);
                assert(block_ok(f2, p2, j));
            }
        }
        assert forall|j: int| 0 <= j < f2.len() && !(#[trigger] f2[j]) implies covered(
            f2,
            p2,
            j,
        ) by {
            if j == i {
                assert(i < p2[i] as int);
            } else {
                assert(j > i);
                assert(covered(f, p, j));
                let a = choose|a: int| 0 <= a <= j && j < (#[trigger] p[a]) as int;
                assert(block_ok(f, p, a));
                assert(a > i);
                assert(a != i + 1);
                assert(p2[a] == p[a]);
            }
        }
    } else {
        let c = p[i + 1] as int;
        assert(block_ok(f, p, i + 1));
        assert forall|j: int| 0 <= j < p2.len() && (#[trigger] p2[j]) != 0usize implies block_ok(
            f2,
            p2,
            j,
        ) by {
            if j == i {
                assert(p2[i] as int == c);
                assert(!f2[i]);
                assert forall|t: int| i <= t < c implies !(#[trigger] f2[t]) by {
                    if t > i {
                        assert(!f[t]);
                    }
                }
                assert forall|t: int| i < t < c implies (#[trigger] p2[t]) == 0usize by {
                    if t > i + 1 {
                        assert(p[t] == 0usize);
                    }
                }
            } else {
                assert(j != 0 && j != i + 1);
                assert(p2[j] == p[j]);
                assert(block_ok(f, p, j));
                assert(j > i);
                assert(j >= c) by {
                    if j < c {
                        assert(p[j] == 0usize);
                    }
                }
                assert(block_ok(f2, p2, j));
            }
        }
        assert forall|j: int| 0 <= j < f2.len() && !(#[trigger] f2[j]) implies covered(
            f2,
            p2,
            j,
        ) by {
            if i <= j < c {
                assert(p2[i] as int == c);
            } else {
                assert(j > i);
                assert(covered(f, p, j));
                let a = choose|a: int| 0 <= a <= j && j < (#[trigger] p[a]) as int;
                assert(block_ok(f, p, a));
                assert(a > i);
                if a == i + 1 {
                    assert(j < c);
                    assert(false);
                }
                assert(p2[a] == p[a]) by {
                    if i + 1 < a < c {
                        assert(p[a] == 0usize);
                    }
                }
            }
        }
    }
}

/// The positions a scanning schedule visits, given the flags the sub-process
/// answers with, step by step.
pub open spec fn scan_run(f: Seq<bool>, bs: Seq<bool>) -> Seq<int>
    decreases bs.len(),
{
    if bs.len() == 0 || scan_sel(f) >= f.len() {
        Seq::empty()
    } else {
        seq![scan_sel(f)] + scan_run(scan_step(f, bs[0]), bs.drop_first())
    }
}

/// The positions a threaded schedule visits, given the same flags.
pub open spec fn thread_run(p: Seq<usize>, bs: Seq<bool>) -> Seq<int>
    decreases bs.len(),
{
    if bs.len() == 0 || thread_sel(p) >= p.len() {
        Seq::empty()
    } else {
        seq![thread_sel(p)] + thread_run(thread_step(p, bs[0]), bs.drop_first())
    }
}

pub proof fn lemma_run_agree(f: Seq<bool>, p: Seq<usize>, bs: Seq<bool>)
    requires
        blocks_ok(f, p),
        f.len() <= usize::MAX,
    ensures
        scan_run(f, bs) == thread_run(p, bs),
    decreases bs.len(),
{
    lemma_sel_agree(f, p);
    if bs.len() > 0 && scan_sel(f) < f.len() {
        lemma_blocks_step(f, p, bs[0]);
        lemma_run_agree(scan_step(f, bs[0]), thread_step(p, bs[0]), bs.drop_first());
    }
}

/// Driven by the same sub-process answers, the scanning and the threaded
/// strategy visit exactly the same positions and halt at the same step, for
/// every number of positions and every answer sequence.
pub proof fn lemma_strategies_agree(n: nat, bs: Seq<bool>)
    requires
        n <= usize::MAX,
    ensures
        scan_run(scan_init(n), bs) == thread_run(thread_init(n), bs),
{
    assert forall|j: int| 0 <= j < n && (#[trigger] thread_init(n)[j]) != 0usize implies block_ok(
        scan_init(n),
        thread_init(n),
        j,
    ) by {}
    lemma_run_agree(scan_init(n), thread_init(n), bs);
}

} // verus!
