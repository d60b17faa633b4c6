//! The concurrent map type that the store, the configuration and the snapshot
//! metadata are kept in.

use vstd::prelude::*;

verus! {

/// `dashmap::DashMap`, opaque to the verifier; the modules that keep one
/// name its contents and give each method they call a contract.
#[verifier::external_type_specification]
#[verifier::external_body]
#[verifier::reject_recursive_types(K)]
#[verifier::reject_recursive_types(V)]
#[verifier::reject_recursive_types(S)]
pub struct ExDashMap<K, V, S>(dashmap::DashMap<K, V, S>);

} // verus!
