//! The concurrent hash map of the `dashmap` crate, which the indexes keep
//! their entries in. Verus sees it as an opaque type; what each index reads
//! and writes through it is stated by that index's own trusted wrappers.
use vstd::prelude::*;
use dashmap::DashMap;

verus! {

#[verifier::external_type_specification]
#[verifier::external_body]
#[verifier::reject_recursive_types(K)]
#[verifier::reject_recursive_types(V)]
#[verifier::reject_recursive_types(S)]
pub struct ExDashMap<K, V, S>(DashMap<K, V, S>);

} // verus!
