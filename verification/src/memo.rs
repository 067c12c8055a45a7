//! A memo of scans, shared by the threads that read it.
use dashmap::DashMap;
use vstd::prelude::*;

verus! {

/// The concurrent map of the crate `dashmap`.
#[verifier::external_type_specification]
#[verifier::external_body]
#[verifier::reject_recursive_types(K)]
#[verifier::reject_recursive_types(V)]
#[verifier::reject_recursive_types(S)]
pub struct ExDashMap<K, V, S>(dashmap::DashMap<K, V, S>);

/// What the memo holds. It is filled through an exclusive reference only, so it does not change
/// while it is shared.
pub uninterp spec fn memo_contents(memo: DashMap<String, bool>) -> Map<Seq<char>, bool>;

/// An empty memo.
///
/// Calls `DashMap::new`. Claimed of it: the map that it makes holds nothing.
#[verifier::external_body]
pub(crate) fn memo_new() -> (memo: DashMap<String, bool>)
    ensures
        memo_contents(memo).is_empty(),
{
    DashMap::new()
}

/// What the memo holds for `name`.
///
/// Calls `DashMap::get` and copies the value out of the guard that it hands back, which releases
/// the lock. Claimed of it: it finds the value of a key that is there, and nothing for one that
/// is not. A `str` finds the `String` of the same characters, which hash and compare alike.
#[verifier::external_body]
pub(crate) fn memo_get(memo: &DashMap<String, bool>, name: &str) -> (found: Option<bool>)
    ensures
        found == (if memo_contents(*memo).contains_key(name@) {
            Some(memo_contents(*memo)[name@])
        } else {
            None
        }),
{
    memo.get(name).map(|entry| *entry)
}

/// Puts the result for `name` into the memo.
///
/// Calls `DashMap::insert`. Claimed of it: the key has the new value, and every other key has
/// what it had. The call locks a shard of the map and waits for guards that other callers hold;
/// the exclusive reference rules such guards out.
#[verifier::external_body]
pub(crate) fn memo_insert(memo: &mut DashMap<String, bool>, name: String, safe: bool)
    ensures
        memo_contents(*final(memo)) == memo_contents(*old(memo)).insert(name@, safe),
{
    memo.insert(name, safe);
}

} // verus!
