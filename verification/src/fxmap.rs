//! The two lookups and two inserts that the library makes on `FxHashMap`s
//! (std's `HashMap` with rustc-hash's hasher).
use vstd::prelude::*;
use rustc_hash::{FxBuildHasher, FxHashMap};

verus! {

/// rustc-hash's `FxBuildHasher`, the hasher of an `FxHashMap`.
#[verifier::external_type_specification]
#[verifier::external_body]
pub struct ExFxBuildHasher(FxBuildHasher);

/// `HashMap::get` on a map keyed by a node id and a binder count. The
/// contract claims that it finds exactly what the map holds for the key:
/// the Fx hasher hashes a key the same way every time, and the key's `Eq`
/// and `Hash` are those of integers.
#[verifier::external_body]
pub(crate) fn memo_get(m: &FxHashMap<(usize, u32), usize>, k: (usize, u32)) -> (r: Option<usize>)
    ensures
        r == (if m@.contains_key(k) {
            Some(m@[k])
        } else {
            None
        }),
{
    m.get(&k).copied()
}

/// `HashMap::insert` on a map keyed by a node id and a binder count. The
/// contract claims that the map then holds `v` for `k` and is otherwise
/// unchanged.
#[verifier::external_body]
pub(crate) fn memo_insert(m: &mut FxHashMap<(usize, u32), usize>, k: (usize, u32), v: usize)
    ensures
        final(m)@ == old(m)@.insert(k, v),
{
    m.insert(k, v);
}

/// `HashMap::get` on a map keyed by a node id. The contract claims that it
/// finds exactly what the map holds for the key.
#[verifier::external_body]
pub(crate) fn slot_get(m: &FxHashMap<usize, usize>, k: usize) -> (r: Option<usize>)
    ensures
        r == (if m@.contains_key(k) {
            Some(m@[k])
        } else {
            None
        }),
{
    m.get(&k).copied()
}

/// `HashMap::insert` on a map keyed by a node id. The contract claims that
/// the map then holds `v` for `k` and is otherwise unchanged.
#[verifier::external_body]
pub(crate) fn slot_insert(m: &mut FxHashMap<usize, usize>, k: usize, v: usize)
    ensures
        final(m)@ == old(m)@.insert(k, v),
{
    m.insert(k, v);
}

} // verus!
