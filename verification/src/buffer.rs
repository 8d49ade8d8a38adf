//! The copy-on-write element buffer that every array carries.
//!
//! The buffer is `ecow::EcoVec<i64>`: a reference-counted vector whose
//! clones share one allocation until a mutation. Verified code never
//! mutates a buffer in place; it reads it as a slice, computes a fresh
//! `Vec<i64>`, and wraps that up again. What a buffer holds is named by
//! the uninterpreted sequence `buf_view`, and the three trusted
//! wrappers below relate ecow's calls to that name.
use vstd::prelude::*;

verus! {

#[verifier::external_type_specification]
#[verifier::external_body]
#[verifier::reject_recursive_types(T)]
pub struct ExEcoVec<T>(ecow::EcoVec<T>);

/// The elements a buffer holds, in order.
pub uninterp spec fn buf_view(b: ecow::EcoVec<i64>) -> Seq<i64>;

/// Relies on `<EcoVec<T> as From<Vec<T>>>::from`: the new buffer holds
/// exactly the vector's elements, in the vector's order.
#[verifier::external_body]
pub fn buf_from_vec(v: Vec<i64>) -> (b: ecow::EcoVec<i64>)
    ensures
        buf_view(b) == v@,
{
    ecow::EcoVec::from(v)
}

/// Relies on `EcoVec::as_slice`: the whole buffer as one slice, in
/// order, without copying.
#[verifier::external_body]
pub fn buf_slice(b: &ecow::EcoVec<i64>) -> (s: &[i64])
    ensures
        s@ == buf_view(*b),
{
    b.as_slice()
}

/// Relies on `<EcoVec<T> as Clone>::clone`: the clone holds the same
/// elements (it shares the allocation until either side mutates).
#[verifier::external_body]
pub fn buf_dup(b: &ecow::EcoVec<i64>) -> (r: ecow::EcoVec<i64>)
    ensures
        buf_view(r) == buf_view(*b),
{
    b.clone()
}

} // verus!
