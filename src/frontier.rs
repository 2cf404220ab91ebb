use vstd::prelude::*;
use timely::progress::frontier::Antichain;

verus! {

/// Timely's `Antichain`, the frontier accumulator handed to `read_upper`;
/// it is opaque here, and what it holds is `antichain_elements`.
#[verifier::external_type_specification]
#[verifier::external_body]
#[verifier::reject_recursive_types(T)]
pub struct ExAntichain<T>(Antichain<T>);

/// The timestamps an antichain holds, in the order it keeps them.
pub uninterp spec fn antichain_elements(a: Antichain<u64>) -> Seq<u64>;

/// Relies on timely's `Antichain::new`: the antichain starts with no element.
#[verifier::external_body]
pub(crate) fn new_antichain() -> (r: Antichain<u64>)
    ensures
        antichain_elements(r) == Seq::<u64>::empty(),
{
    Antichain::new()
}

/// Relies on timely's `Antichain::elements`: the slice of the elements held.
#[verifier::external_body]
pub(crate) fn elements(a: &Antichain<u64>) -> (r: &[u64])
    ensures
        r@ == antichain_elements(*a),
{
    a.elements()
}

} // verus!
