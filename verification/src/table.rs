//! The concurrent hash map that the tables of the proxy are kept in.

use dashmap::DashMap;
use vstd::prelude::*;

verus! {

/// `dashmap::DashMap`. What a table holds is named where the table is used.
#[verifier::external_type_specification]
#[verifier::external_body]
#[verifier::reject_recursive_types(K)]
#[verifier::reject_recursive_types(V)]
#[verifier::reject_recursive_types(S)]
pub struct ExDashMap<K, V, S>(DashMap<K, V, S>);

} // verus!
