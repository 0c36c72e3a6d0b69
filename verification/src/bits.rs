use vstd::prelude::*;

verus! {

#[verifier::external_type_specification]
#[verifier::external_body]
#[verifier::reject_recursive_types(B)]
pub struct ExBitVec<B>(bit_vec::BitVec<B>);

/// The bits held by a `bit_vec::BitVec`, in index order.
pub uninterp spec fn bits_of(bv: bit_vec::BitVec) -> Seq<bool>;

/// Relies on bit_vec::BitVec::from_elem: a vector of `n` bits, all equal to
/// `b`.
#[verifier::external_body]
pub fn bv_new(n: usize, b: bool) -> (r: bit_vec::BitVec)
    ensures
        bits_of(r) == Seq::new(n as nat, |i: int| b),
{
    bit_vec::BitVec::from_elem(n, b)
}

/// Relies on bit_vec::BitVec::set: writes one bit in place; panics only on
/// an out-of-range index, which the precondition rules out.
#[verifier::external_body]
pub fn bv_set(bv: &mut bit_vec::BitVec, i: usize, b: bool)
    requires
        (i as int) < bits_of(*old(bv)).len(),
    ensures
        bits_of(*final(bv)) == bits_of(*old(bv)).update(i as int, b),
{
    bv.set(i, b)
}

/// Relies on bit_vec::BitVec::get: reads one bit; `None` comes back only on
/// an out-of-range index, which the precondition rules out.
#[verifier::external_body]
pub fn bv_get(bv: &bit_vec::BitVec, i: usize) -> (r: bool)
    requires
        (i as int) < bits_of(*bv).len(),
    ensures
        r == bits_of(*bv)[i as int],
{
    bv.get(i).unwrap()
}

} // verus!
