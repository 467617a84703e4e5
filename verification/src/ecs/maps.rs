//! Access to `HashMap` entries in place.
use std::collections::HashMap;
use vstd::prelude::*;

verus! {

/// Calls `HashMap::get_mut`. Trusted: the returned reference is the value stored under `k`
/// when there is one, and writing through it replaces that value and nothing else; without
/// an entry the map is left unchanged.
#[verifier::external_body]
pub(crate) fn hash_map_get_mut<V>(m: &mut HashMap<u32, V>, k: u32) -> (r: Option<&mut V>)
    ensures
        match r {
            Some(v) => old(m)@.contains_key(k) && *v == old(m)@[k] && final(m)@ == old(m)@.insert(
                k,
                *final(v),
            ),
            None => !old(m)@.contains_key(k) && final(m)@ == old(m)@,
        },
{
    m.get_mut(&k)
}

} // verus!
