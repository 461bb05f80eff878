//! The byte storage of arrays: an `ecow::EcoVec<u8>`, seen through its contents.

use vstd::prelude::*;
use ecow::EcoVec;

verus! {

#[verifier::external_type_specification]
#[verifier::external_body]
#[verifier::reject_recursive_types(T)]
pub struct ExEcoVec<T>(EcoVec<T>);

/// The bytes that an `EcoVec<u8>` holds, in order.
pub uninterp spec fn eco_bytes(v: EcoVec<u8>) -> Seq<u8>;

/// `ecow::EcoVec::<u8>::from(Vec<u8>)`: moves the vector's bytes, in order,
/// into a new `EcoVec`. It allocates through `EcoVec::with_capacity`, which
/// panics for a capacity above `isize::MAX`: no `Vec<u8>` holds that many
/// bytes, as the standard library refuses such a capacity.
#[verifier::external_body]
pub(crate) fn bytes_from_vec(v: Vec<u8>) -> (r: EcoVec<u8>)
    ensures
        eco_bytes(r) == v@,
{
    EcoVec::from(v)
}

/// `ecow::EcoVec::<u8>::as_slice`: the bytes held, as a slice. An `EcoVec`
/// keeps `len <= capacity <= isize::MAX` as an invariant of its type.
#[verifier::external_body]
pub(crate) fn bytes_as_slice(v: &EcoVec<u8>) -> (s: &[u8])
    ensures
        s@ == eco_bytes(*v),
        s@.len() <= isize::MAX,
{
    v.as_slice()
}

/// `<ecow::EcoVec<u8> as Clone>::clone`: a vector that shares the same
/// allocation, and so holds the same bytes.
#[verifier::external_body]
pub(crate) fn bytes_clone(v: &EcoVec<u8>) -> (r: EcoVec<u8>)
    ensures
        eco_bytes(r) == eco_bytes(*v),
{
    v.clone()
}

} // verus!
