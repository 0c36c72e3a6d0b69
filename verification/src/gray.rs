use vstd::prelude::*;
use vstd::string::StringExecFns;
use crate::glp::GLPSubProc;

verus! {

/// The simplest conforming sub-process: `n` bits, each position flipping
/// its own bit and never reporting its cycle as ongoing, so that the engine
/// walks the reflected binary code of the bits.
#[derive(Debug)]
pub struct GrayCode(Vec<bool>);

impl GrayCode {
    pub closed spec fn bits_view(&self) -> Seq<bool> {
        self.0@
    }

    /// `n` bits, all clear.
    pub fn new(n: usize) -> (r: GrayCode)
        ensures
            r.bits_view() == Seq::new(n as nat, |i: int| false),
    {
        let mut v: Vec<bool> = Vec::new();
        let mut i: usize = 0;
        while i < n
            invariant
                i <= n,
                v@.len() == i as int,
                forall|t: int| 0 <= t < i ==> (#[trigger] v@[t]) == false,
            decreases n - i,
        {
            v.push(false);
            i = i + 1;
        }
        proof {
            assert(v@ =~= Seq::new(n as nat, |i: int| false));
        }
        GrayCode(v)
    }

    /// The bits as a string, in index order.
    pub fn bits(&self) -> (r: String)
        ensures
            r@.len() == self.bits_view().len(),
            forall|t: int|
                0 <= t < r@.len() ==> r@[t] == (if self.bits_view()[t] {
                    '1'
                } else {
                    '0'
                }),
    {
        let n = self.0.len();
        let mut r = String::new();
        let mut i: usize = 0;
        while i < n
            invariant
                i <= n,
                n as int == self.0@.len(),
                r@.len() == i as int,
                forall|t: int|
                    0 <= t < r@.len() ==> r@[t] == (if self.0@[t] {
                        '1'
                    } else {
                        '0'
                    }),
            decreases n - i,
        {
            if self.0[i] {
                r.append("1");
            } else {
                r.append("0");
            }
            proof {
                reveal_strlit("1");
                reveal_strlit("0");
            }
            i = i + 1;
        }
        r
    }
}

/// A Gray-code sub-process always satisfies the sub-process contract, so
/// verified callers may hand it to the engine.
pub proof fn lemma_gray_inv(g: &GrayCode)
    ensures
        g.sp_inv(),
{
}

/// What the engine's step model means for a Gray code: the abstract state
/// is the bits, and a step at position `i` flips bit `i`, answers with a
/// completed cycle, and yields an empty edit.
pub proof fn lemma_gray_model(g: &GrayCode)
    ensures
        g.sp_view() == g.bits_view(),
        g.sp_size() == g.bits_view().len(),
        forall|i: int| #[trigger] g.sp_answer(i) == false,
        forall|i: int| #[trigger] g.sp_next(i) == g.bits_view().update(i, !g.bits_view()[i]),
{
}

impl GLPSubProc for GrayCode {
    type Delta = ();

    type V = Seq<bool>;

    closed spec fn sp_size(&self) -> nat {
        self.0@.len()
    }

    closed spec fn sp_inv(&self) -> bool {
        true
    }

    closed spec fn sp_fixed(&self, pre: &Self) -> bool {
        self.0@.len() == pre.0@.len()
    }

    closed spec fn sp_view(&self) -> Seq<bool> {
        self.0@
    }

    closed spec fn sp_answer(&self, i: int) -> bool {
        false
    }

    closed spec fn sp_delta(&self, i: int) -> () {
        ()
    }

    closed spec fn sp_next(&self, i: int) -> Seq<bool> {
        self.0@.update(i, !self.0@[i])
    }

    fn size(&self) -> (n: usize) {
        self.0.len()
    }

    /// Flip bit `i`; a position's local cycle is over after every flip.
    fn execute(&mut self, i: usize) -> (r: (bool, ()))
        ensures
            final(self).bits_view() == old(self).bits_view().update(
                i as int,
                !old(self).bits_view()[i as int],
            ),
            r.0 == false,
    {
        let b = self.0[i];
        self.0.set(i, !b);
        (false, ())
    }
}

} // verus!
