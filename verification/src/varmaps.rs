use vstd::prelude::*;
use varmap::{ClearStrategy, PoolHandle, VarMap, VarMapPool};

verus! {

#[verifier::external_type_specification]
#[verifier::external_body]
pub struct ExVarMap(VarMap);

#[verifier::external_type_specification]
#[verifier::external_body]
pub struct ExVarMapPool(VarMapPool);

#[verifier::external_type_specification]
#[verifier::external_body]
pub struct ExPoolHandle(PoolHandle);

#[verifier::external_type_specification]
#[verifier::external_body]
pub struct ExKey(varmap::Key);

/// The handles, of the form `allocate` mints, that `get` resolves to a map
/// of `pool`.
pub uninterp spec fn live_handles(pool: VarMapPool) -> Set<PoolHandle>;

/// The number of values `map` stores (one per distinct key).
pub uninterp spec fn varmap_entries(map: VarMap) -> nat;

/// Whether `map` holds a value under `key`, as `VarMap::contains` tells.
pub uninterp spec fn varmap_has(map: VarMap, key: varmap::Key) -> bool;

/// The map `pool` keeps under `handle`.
pub uninterp spec fn pool_map(pool: VarMapPool, handle: PoolHandle) -> VarMap;

/// `VarMap::new`: an empty map.
#[verifier::external_body]
pub(crate) fn new_varmap() -> (r: VarMap)
    ensures
        varmap_entries(r) == 0,
        forall|k: varmap::Key| !varmap_has(r, k),
{
    VarMap::new()
}

/// `VarMap::clear`: removes every key, so no value is stored.
#[verifier::external_body]
pub(crate) fn clear_varmap(map: &mut VarMap)
    ensures
        varmap_entries(*final(map)) == 0,
        forall|k: varmap::Key| !varmap_has(*final(map), k),
{
    map.clear()
}

/// `VarMap::set`: stores `value` under `key`, overwriting the value of an
/// existing key or adding one value; keys already held stay held. Adding a
/// value to a map that already stores 65535 trips its debug assertion, so
/// the map must store fewer. The values themselves are of any
/// `VarMapValue` type and are not modelled.
#[verifier::external_body]
pub(crate) fn varmap_set<V: varmap::VarMapValue>(map: &mut VarMap, key: varmap::Key, value: V)
    requires
        varmap_entries(*old(map)) < 65535,
    ensures
        varmap_has(*final(map), key),
        forall|k: varmap::Key| varmap_has(*old(map), k) ==> #[trigger] varmap_has(*final(map), k),
        varmap_entries(*final(map)) == if varmap_has(*old(map), key) {
            varmap_entries(*old(map))
        } else {
            varmap_entries(*old(map)) + 1
        },
{
    map.set(key, value)
}

/// `VarMapPool::new`: a pool with no live handle.
#[verifier::external_body]
pub(crate) fn new_pool() -> (r: VarMapPool)
    ensures
        live_handles(r) == Set::<PoolHandle>::empty(),
{
    VarMapPool::new()
}

/// `VarMapPool::allocate`: checks out an empty map under a handle that was
/// not live, and makes it live; every other handle keeps its state.
#[verifier::external_body]
pub(crate) fn pool_allocate(pool: &mut VarMapPool) -> (h: PoolHandle)
    ensures
        !live_handles(*old(pool)).contains(h),
        live_handles(*final(pool)) == live_handles(*old(pool)).insert(h),
        varmap_entries(pool_map(*final(pool), h)) == 0,
        forall|k: varmap::Key| !varmap_has(pool_map(*final(pool), h), k),
{
    pool.allocate()
}

/// `VarMapPool::release`: `handle` stops being live (a stale handle is
/// ignored); every other handle keeps its state.
#[verifier::external_body]
pub(crate) fn pool_release(pool: &mut VarMapPool, handle: PoolHandle)
    ensures
        live_handles(*final(pool)) == live_handles(*old(pool)).remove(handle),
{
    pool.release(handle)
}

/// `VarMapPool::get`: the map of `handle`, exactly when it is live.
#[verifier::external_body]
pub(crate) fn pool_get(pool: &VarMapPool, handle: PoolHandle) -> (r: Option<&VarMap>)
    ensures
        r.is_some() == live_handles(*pool).contains(handle),
        r matches Some(m) ==> *m == pool_map(*pool, handle),
{
    pool.get(handle)
}

/// `VarMapPool::get_mut`: the map of `handle`, exactly when it is live;
/// writing to it leaves every handle's state unchanged.
#[verifier::external_body]
pub(crate) fn pool_get_mut(pool: &mut VarMapPool, handle: PoolHandle) -> (r: Option<&mut VarMap>)
    ensures
        r.is_some() == live_handles(*old(pool)).contains(handle),
        r matches Some(m) ==> *m == pool_map(*old(pool), handle) && pool_map(*final(pool), handle) == *final(m),
        live_handles(*final(pool)) == live_handles(*old(pool)),
{
    pool.get_mut(handle)
}

/// `VarMapPool::clear` with `ClearStrategy::KeepSmallestN(keep)`: every
/// handle stops being live.
#[verifier::external_body]
pub(crate) fn pool_clear_keep_smallest(pool: &mut VarMapPool, keep: u32)
    ensures
        live_handles(*final(pool)) == Set::<PoolHandle>::empty(),
{
    pool.clear(ClearStrategy::KeepSmallestN(keep))
}

} // verus!
