use vstd::prelude::*;
use crate::sched::{
    lemma_scan_sel_char, scan_init, scan_sel, scan_step, thread_init, thread_sel, thread_step,
};

verus! {

/// A combinatorial sub-process that the digit-counter engine can drive: a
/// fixed number of independently advanceable positions.  `execute` advances
/// one position and reports, beside the edit it applied, whether the
/// position can advance again (`true`) or has just completed its local
/// cycle (`false`; at the last position this single answer ends the whole
/// enumeration).
pub trait GLPSubProc: Sized {
    type Delta;

    /// The abstract state that the step model below speaks of.
    type V;

    /// The number of positions, fixed for the sub-process's lifetime.
    spec fn sp_size(&self) -> nat;

    /// The sub-process's own well-formedness, preserved by every step.
    spec fn sp_inv(&self) -> bool;

    /// What one step never changes, beyond the two clauses above.
    spec fn sp_fixed(&self, pre: &Self) -> bool;

    /// The current abstract state.
    spec fn sp_view(&self) -> Self::V;

    /// The flag one step at position `i` answers with.
    spec fn sp_answer(&self, i: int) -> bool;

    /// The edit one step at position `i` yields.
    spec fn sp_delta(&self, i: int) -> Self::Delta;

    /// The abstract state after one step at position `i`.
    spec fn sp_next(&self, i: int) -> Self::V;

    fn size(&self) -> (n: usize)
        requires
            self.sp_inv(),
        ensures
            n as nat == self.sp_size(),
    ;

    fn execute(&mut self, i: usize) -> (r: (bool, Self::Delta))
        requires
            old(self).sp_inv(),
            (i as nat) < old(self).sp_size(),
        ensures
            final(self).sp_inv(),
            final(self).sp_size() == old(self).sp_size(),
            final(self).sp_fixed(old(self)),
            r.0 == old(self).sp_answer(i as int),
            r.1 == old(self).sp_delta(i as int),
            final(self).sp_view() == old(self).sp_next(i as int),
    ;
}

/// The scanning scheduling strategy: one eligibility flag per position,
/// re-scanned from the bottom on every step.  Simple, worst-case linear.
pub struct GLPLoop {
    f: Vec<bool>,
}

impl GLPLoop {
    pub closed spec fn view_flags(&self) -> Seq<bool> {
        self.f@
    }

    pub fn start(n: usize) -> (r: GLPLoop)
        ensures
            r.view_flags() == scan_init(n as nat),
    {
        let mut f: Vec<bool> = Vec::new();
        let mut i: usize = 0;
        while i < n
            invariant
                i <= n,
                f@.len() == i as int,
                forall|j: int| 0 <= j < i ==> (#[trigger] f@[j]) == true,
            decreases n - i,
        {
            f.push(true);
            i = i + 1;
        }
        proof {
            assert(f@ =~= scan_init(n as nat));
        }
        GLPLoop { f }
    }

    /// One scheduling step: pick the lowest eligible position, drive the
    /// sub-process there, store its answer and re-arm everything below.
    /// Yields the sub-process's edit, or `None` once no position is
    /// eligible.
    pub fn next<SP: GLPSubProc>(&mut self, proc: &mut SP) -> (r: Option<SP::Delta>)
        requires
            old(proc).sp_inv(),
            old(self).view_flags().len() == old(proc).sp_size(),
        ensures
            final(proc).sp_inv(),
            final(proc).sp_size() == old(proc).sp_size(),
            final(self).view_flags().len() == old(self).view_flags().len(),
            scan_sel(old(self).view_flags()) >= old(self).view_flags().len() ==> (r is None
                && final(self).view_flags() == old(self).view_flags()
                && *final(proc) == *old(proc)),
            scan_sel(old(self).view_flags()) < old(self).view_flags().len() ==> ({
                let sel = scan_sel(old(self).view_flags());
                &&& r == Option::Some(old(proc).sp_delta(sel))
                &&& final(self).view_flags() == scan_step(
                    old(self).view_flags(),
                    old(proc).sp_answer(sel),
                )
                &&& final(proc).sp_view() == old(proc).sp_next(sel)
                &&& final(proc).sp_fixed(old(proc))
            }),
    {
        proof {
            lemma_scan_sel_char(self.f@);
        }
        let ghost f0 = self.f@;
        let n = self.f.len();
        let mut i: usize = 0;
        while i < n && !self.f[i]
            invariant
                i <= n,
                n as int == self.f@.len(),
                self.f@ == f0,
                forall|j: int| 0 <= j < i ==> !(#[trigger] self.f@[j]),
            decreases n - i,
        {
            i = i + 1;
        }
        proof {
            if i < n {
                assert(scan_sel(f0) == i as int) by {
                    if scan_sel(f0) < i as int {
                        assert(!f0[scan_sel(f0)]);
                    }
                    if (i as int) < scan_sel(f0) {
                        assert(!f0[i as int]);
                    }
                }
            } else {
                assert(scan_sel(f0) >= n as int) by {
                    if scan_sel(f0) < n as int {
                        assert(!f0[scan_sel(f0)]);
                    }
                }
            }
        }
        if i >= n {
            return None;
        }
        let (b, d) = proc.execute(i);
        self.f.set(i, b);
        let mut j: usize = 0;
        while j < i
            invariant
                j <= i,
                (i as int) < self.f@.len(),
                self.f@.len() == f0.len(),
                forall|t: int| 0 <= t < j ==> (#[trigger] self.f@[t]) == true,
                forall|t: int| j <= t < f0.len() && t != i as int ==> (#[trigger] self.f@[t])
                    == f0[t],
                self.f@[i as int] == b,
            decreases i - j,
        {
            self.f.set(j, true);
            j = j + 1;
        }
        proof {
            assert(self.f@ =~= scan_step(f0, b));
        }
        Some(d)
    }
}

/// The threaded (loopless) scheduling strategy: one forward pointer per
/// position, so the next position to advance is found in constant time.
pub struct GLPLoopFree {
    p: Vec<usize>,
}

impl GLPLoopFree {
    pub closed spec fn view_ptrs(&self) -> Seq<usize> {
        self.p@
    }

    pub fn start(n: usize) -> (r: GLPLoopFree)
        ensures
            r.view_ptrs() == thread_init(n as nat),
    {
        let mut p: Vec<usize> = Vec::new();
        let mut i: usize = 0;
        while i < n
            invariant
                i <= n,
                p@.len() == i as int,
                forall|j: int| 0 <= j < i ==> (#[trigger] p@[j]) == 0usize,
            decreases n - i,
        {
            p.push(0);
            i = i + 1;
        }
        proof {
            assert(p@ =~= thread_init(n as nat));
        }
        GLPLoopFree { p }
    }

    /// One scheduling step in constant time: drive the sub-process at the
    /// position the head pointer names, then relink the chain from its
    /// answer.  Yields the sub-process's edit, or `None` once the head
    /// pointer has run off the end.
    pub fn next<SP: GLPSubProc>(&mut self, proc: &mut SP) -> (r: Option<SP::Delta>)
        requires
            old(proc).sp_inv(),
            old(self).view_ptrs().len() == old(proc).sp_size(),
        ensures
            final(proc).sp_inv(),
            final(proc).sp_size() == old(proc).sp_size(),
            final(self).view_ptrs().len() == old(self).view_ptrs().len(),
            thread_sel(old(self).view_ptrs()) >= old(self).view_ptrs().len() ==> (r is None
                && final(self).view_ptrs() == old(self).view_ptrs()
                && *final(proc) == *old(proc)),
            thread_sel(old(self).view_ptrs()) < old(self).view_ptrs().len() ==> ({
                let sel = thread_sel(old(self).view_ptrs());
                &&& r == Option::Some(old(proc).sp_delta(sel))
                &&& final(self).view_ptrs() == thread_step(
                    old(self).view_ptrs(),
                    old(proc).sp_answer(sel),
                )
                &&& final(proc).sp_view() == old(proc).sp_next(sel)
                &&& final(proc).sp_fixed(old(proc))
            }),
    {
        let ghost p0 = self.p@;
        let n = self.p.len();
        if n == 0 {
            return None;
        }
        let i = self.p[0];
        if i >= n {
            return None;
        }
        let (b, d) = proc.execute(i);
        if b {
            self.p.set(i, 0);
        } else if i == n - 1 {
            self.p.set(i, n);
        } else if self.p[i + 1] == 0 {
            self.p.set(i, i + 1);
        } else {
            let q = self.p[i + 1];
            self.p.set(i, q);
            self.p.set(i + 1, 0);
        }
        if i > 0 {
            self.p.set(0, 0);
        }
        proof {
            assert(self.p@ =~= thread_step(p0, b));
        }
        Some(d)
    }
}

/// The delta stream: the threaded strategy driving a sub-process, yielding
/// one edit per step until the enumeration is exhausted.
pub struct GLPIter<SP: GLPSubProc> {
    proc: SP,
    iter: GLPLoopFree,
}

impl<SP: GLPSubProc> GLPIter<SP> {
    pub closed spec fn wf(&self) -> bool {
        &&& self.proc.sp_inv()
        &&& self.iter.view_ptrs().len() == self.proc.sp_size()
    }

    pub closed spec fn proc_view(&self) -> &SP {
        &self.proc
    }

    pub closed spec fn ptrs_view(&self) -> Seq<usize> {
        self.iter.view_ptrs()
    }

    pub fn run(proc: SP) -> (r: GLPIter<SP>)
        requires
            proc.sp_inv(),
        ensures
            r.wf(),
            *r.proc_view() == proc,
            r.proc_view().sp_inv(),
            r.ptrs_view() == thread_init(proc.sp_size()),
    {
        let n = proc.size();
        let iter = GLPLoopFree::start(n);
        GLPIter { proc, iter }
    }

    /// Advance the enumeration by one edit: `None` exactly once the head
    /// pointer has run off the end, else the edit of the selected position,
    /// with the pointers and the sub-process advanced by their models.
    pub fn next(&mut self) -> (r: Option<SP::Delta>)
        requires
            old(self).wf(),
        ensures
            final(self).wf(),
            final(self).proc_view().sp_inv(),
            final(self).ptrs_view().len() == old(self).ptrs_view().len(),
            r is None <==> thread_sel(old(self).ptrs_view()) >= old(self).ptrs_view().len(),
            r is None ==> *final(self).proc_view() == *old(self).proc_view()
                && final(self).ptrs_view() == old(self).ptrs_view(),
            r is Some ==> ({
                let sel = thread_sel(old(self).ptrs_view());
                &&& r == Option::Some(old(self).proc_view().sp_delta(sel))
                &&& final(self).ptrs_view() == thread_step(
                    old(self).ptrs_view(),
                    old(self).proc_view().sp_answer(sel),
                )
                &&& final(self).proc_view().sp_view() == old(self).proc_view().sp_next(sel)
                &&& final(self).proc_view().sp_fixed(old(self).proc_view())
            }),
    {
        let r = self.iter.next(&mut self.proc);
        r
    }
}

/// The state stream: the scanning strategy driving a sub-process; yields
/// the initial state first, then the state after each step.  The caller
/// inspects the current state between steps through `current`.
pub struct GLPIterStates<SP: GLPSubProc> {
    proc: SP,
    iter: GLPLoop,
    started: bool,
}

impl<SP: GLPSubProc> GLPIterStates<SP> {
    pub closed spec fn wf(&self) -> bool {
        &&& self.proc.sp_inv()
        &&& self.iter.view_flags().len() == self.proc.sp_size()
    }

    pub closed spec fn proc_view(&self) -> &SP {
        &self.proc
    }

    pub closed spec fn flags_view(&self) -> Seq<bool> {
        self.iter.view_flags()
    }

    pub closed spec fn started_view(&self) -> bool {
        self.started
    }

    pub fn run(proc: SP) -> (r: GLPIterStates<SP>)
        requires
            proc.sp_inv(),
        ensures
            r.wf(),
            *r.proc_view() == proc,
            r.proc_view().sp_inv(),
            r.flags_view() == scan_init(proc.sp_size()),
            !r.started_view(),
    {
        let n = proc.size();
        let iter = GLPLoop::start(n);
        GLPIterStates { proc, iter, started: false }
    }

    /// Step to the next raw state.  The first call owes `true` without
    /// moving, so that the initial state is observed too; afterwards each
    /// call advances the sub-process once, and answers `false` exactly
    /// once no position is eligible any more.
    pub fn step(&mut self) -> (more: bool)
        requires
            old(self).wf(),
        ensures
            final(self).wf(),
            final(self).proc_view().sp_inv(),
            final(self).started_view(),
            !old(self).started_view() ==> more && *final(self).proc_view() == *old(self).proc_view()
                && final(self).flags_view() == old(self).flags_view(),
            old(self).started_view() ==> ({
                let sel = scan_sel(old(self).flags_view());
                &&& (more <==> sel < old(self).flags_view().len())
                &&& (!more ==> *final(self).proc_view() == *old(self).proc_view()
                    && final(self).flags_view() == old(self).flags_view())
                &&& (more ==> final(self).flags_view() == scan_step(
                    old(self).flags_view(),
                    old(self).proc_view().sp_answer(sel),
                ) && final(self).proc_view().sp_view() == old(self).proc_view().sp_next(sel)
                    && final(self).proc_view().sp_fixed(old(self).proc_view()))
            }),
    {
        if !self.started {
            self.started = true;
            return true;
        }
        let r = self.iter.next(&mut self.proc);
        match r {
            Option::Some(_) => true,
            Option::None => false,
        }
    }

    /// The current raw state.
    pub fn current(&self) -> (r: &SP)
        requires
            self.wf(),
        ensures
            r == self.proc_view(),
            r.sp_inv(),
    {
        &self.proc
    }
}

/// Run a sub-process to completion edit by edit, with the threaded
/// strategy: the production entry point.
pub fn deltas<SP: GLPSubProc>(proc: SP) -> (r: GLPIter<SP>)
    requires
        proc.sp_inv(),
    ensures
        r.wf(),
        *r.proc_view() == proc,
        r.proc_view().sp_inv(),
        r.ptrs_view() == thread_init(proc.sp_size()),
{
    GLPIter::run(proc)
}

/// Walk a sub-process state by state, with the scanning strategy: the
/// inspection entry point.
pub fn states<SP: GLPSubProc>(proc: SP) -> (r: GLPIterStates<SP>)
    requires
        proc.sp_inv(),
    ensures
        r.wf(),
        *r.proc_view() == proc,
        r.proc_view().sp_inv(),
        r.flags_view() == scan_init(proc.sp_size()),
        !r.started_view(),
{
    GLPIterStates::run(proc)
}

} // verus!
