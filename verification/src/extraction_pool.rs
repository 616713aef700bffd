use vstd::prelude::*;

verus! {

/// Opaque token identifying one extraction session on a
/// [`ContentExtractor`](crate::ContentExtractor).
///
/// The scanner obtains a handle from `acquire` and passes it back into
/// every subsequent `advance` / `extract` / `release` call for that
/// session, so one extractor can drive several nested sessions.
#[derive(Copy, Clone, Debug, PartialEq, Eq, Structural)]
pub struct ExtractionHandle {
    index: u32,
    uid: u32,
}

impl ExtractionHandle {
    pub closed spec fn spec_index(&self) -> u32 {
        self.index
    }

    pub closed spec fn spec_uid(&self) -> u32 {
        self.uid
    }

    pub fn new(index: u32, uid: u32) -> (r: Self)
        ensures
            r.spec_index() == index,
            r.spec_uid() == uid,
    {
        Self { index, uid }
    }

    pub fn index(&self) -> (r: u32)
        ensures
            r == self.spec_index(),
    {
        self.index
    }

    pub fn uid(&self) -> (r: u32)
        ensures
            r == self.spec_uid(),
    {
        self.uid
    }
}

/// Storage for the per-session state of a
/// [`ContentExtractor`](crate::ContentExtractor).
///
/// Holds one `T` per live session and returns the [`ExtractionHandle`]
/// that identifies it. Slots are recycled through a free list, and each
/// handle carries a uid that grows with every acquisition, so a stale
/// handle whose slot was reused resolves to `None` instead of another
/// session's state.
pub struct ExtractionPool<T> {
    pool: Vec<Option<(u32, T)>>,
    free_list: Vec<u32>,
    last_uid: u32,
}

impl<T> ExtractionPool<T> {
    /// Slot bookkeeping is consistent: uids of live slots are distinct and
    /// minted, and the free list names distinct empty slots.
    pub closed spec fn wf(&self) -> bool {
        &&& self.pool@.len() <= self.last_uid
        &&& forall|i: int| 0 <= i < self.pool@.len() && (#[trigger] self.pool@[i]) is Some
                ==> 1 <= (self.pool@[i]->0).0 <= self.last_uid
        &&& forall|i: int, j: int| 0 <= i < self.pool@.len() && 0 <= j < self.pool@.len() && i != j
                && (#[trigger] self.pool@[i]) is Some && (#[trigger] self.pool@[j]) is Some
                ==> (self.pool@[i]->0).0 != (self.pool@[j]->0).0
        &&& forall|k: int| 0 <= k < self.free_list@.len()
                ==> (#[trigger] self.free_list@[k]) < self.pool@.len() && self.pool@[self.free_list@[k] as int] is None
        &&& forall|k: int, l: int| 0 <= k < l < self.free_list@.len() ==> self.free_list@[k] != self.free_list@[l]
    }

    /// The live sessions: each handle that still refers to a session, with
    /// that session's state.
    pub closed spec fn live(&self) -> Map<ExtractionHandle, T> {
        Map::new(
            |h: ExtractionHandle| h.index < self.pool@.len() && self.pool@[h.index as int] is Some && (self.pool@[h.index as int]->0).0 == h.uid,
            |h: ExtractionHandle| (self.pool@[h.index as int]->0).1,
        )
    }

    /// The slots released and not reused yet; the last one is reused first.
    pub closed spec fn free_slots(&self) -> Seq<u32> {
        self.free_list@
    }

    /// How many slots the pool has ever used.
    pub closed spec fn slot_count(&self) -> nat {
        self.pool@.len()
    }

    /// Number of handles minted so far; the next one gets this plus one as
    /// its uid.
    pub closed spec fn minted(&self) -> u32 {
        self.last_uid
    }

    /// Creates an empty pool with room for `capacity` sessions before it
    /// needs to grow.
    pub fn new(capacity: usize) -> (r: Self)
        ensures
            r.wf(),
            r.live() == Map::<ExtractionHandle, T>::empty(),
            r.minted() == 0,
    {
        let r = Self { pool: Vec::with_capacity(capacity), free_list: Vec::with_capacity(capacity), last_uid: 0 };
        assert(r.live() =~= Map::<ExtractionHandle, T>::empty());
        r
    }

    /// Stores `obj` in a free slot and returns the handle that identifies
    /// it; every other live session is left as it was.
    pub fn acquire_slot(&mut self, obj: T) -> (h: ExtractionHandle)
        requires
            old(self).wf(),
            old(self).minted() < u32::MAX,
        ensures
            final(self).wf(),
            !old(self).live().dom().contains(h),
            final(self).live() == old(self).live().insert(h, obj),
            final(self).minted() == old(self).minted() + 1,
            h.spec_uid() == final(self).minted(),
            if old(self).free_slots().len() > 0 {
                &&& h.spec_index() == old(self).free_slots().last()
                &&& final(self).free_slots() == old(self).free_slots().drop_last()
                &&& final(self).slot_count() == old(self).slot_count()
            } else {
                &&& h.spec_index() == old(self).slot_count()
                &&& final(self).free_slots() == old(self).free_slots()
                &&& final(self).slot_count() == old(self).slot_count() + 1
            },
    {
        let ghost old_live = self.live();
        let ghost old_pool = self.pool@;
        self.last_uid = self.last_uid + 1;
        let uid = self.last_uid;
        let idx: u32 = match self.free_list.pop() {
            Some(idx) => {
                self.pool.set(idx as usize, Some((uid, obj)));
                idx
            },
            None => {
                let idx = self.pool.len() as u32;
                self.pool.push(Some((uid, obj)));
                idx
            },
        };
        let h = ExtractionHandle { index: idx, uid };
        proof {
            assert(!old_live.dom().contains(h));
            assert forall|g: ExtractionHandle| #[trigger] self.live().dom().contains(g) == old_live.insert(h, obj).dom().contains(g) by {
                if g.index < old_pool.len() && g.index != idx {
                    assert(self.pool@[g.index as int] == old_pool[g.index as int]);
                }
            }
            assert forall|g: ExtractionHandle| #[trigger] self.live().dom().contains(g) implies self.live()[g] == old_live.insert(h, obj)[g] by {
                if g.index != idx {
                    assert(self.pool@[g.index as int] == old_pool[g.index as int]);
                }
            }
            assert(self.live() =~= old_live.insert(h, obj));
        }
        h
    }

    /// Drops the state behind `handle` and returns its slot to the free
    /// list; a handle that no longer refers to a live session is ignored.
    pub fn release_slot(&mut self, handle: ExtractionHandle)
        requires
            old(self).wf(),
        ensures
            final(self).wf(),
            final(self).live() == old(self).live().remove(handle),
            final(self).minted() == old(self).minted(),
            final(self).slot_count() == old(self).slot_count(),
            final(self).free_slots() == if old(self).live().dom().contains(handle) {
                old(self).free_slots().push(handle.spec_index())
            } else {
                old(self).free_slots()
            },
    {
        let ghost old_live = self.live();
        let ghost old_pool = self.pool@;
        let idx = handle.index as usize;
        if idx >= self.pool.len() {
            assert(self.live() =~= old_live.remove(handle));
            return;
        }
        let index_checked = match &self.pool[idx] {
            Some((id, _)) => *id == handle.uid,
            None => false,
        };
        if index_checked {
            self.pool.set(idx, None);
            self.free_list.push(handle.index);
            proof {
                assert forall|g: ExtractionHandle| #[trigger] self.live().dom().contains(g) == old_live.remove(handle).dom().contains(g) by {
                    if g.index < old_pool.len() && g.index != idx {
                        assert(self.pool@[g.index as int] == old_pool[g.index as int]);
                    }
                }
                assert forall|g: ExtractionHandle| #[trigger] self.live().dom().contains(g) implies self.live()[g] == old_live.remove(handle)[g] by {
                    assert(self.pool@[g.index as int] == old_pool[g.index as int]);
                }
                assert(self.live() =~= old_live.remove(handle));
            }
        } else {
            assert(self.live() =~= old_live.remove(handle));
        }
    }

    /// Borrows the state behind `handle`, or `None` if the handle no longer
    /// refers to a live session.
    pub fn get(&self, handle: ExtractionHandle) -> (r: Option<&T>)
        ensures
            r is Some <==> self.live().dom().contains(handle),
            r matches Some(v) ==> *v == self.live()[handle],
    {
        let idx = handle.index as usize;
        if idx >= self.pool.len() {
            return None;
        }
        match &self.pool[idx] {
            Some((id, value)) => {
                if *id == handle.uid {
                    Some(value)
                } else {
                    None
                }
            },
            None => None,
        }
    }

    /// Mutably borrows the state behind `handle`, or `None` if the handle
    /// no longer refers to a live session. What is written through the
    /// borrow becomes that session's state; nothing else changes.
    pub fn get_mut(&mut self, handle: ExtractionHandle) -> (r: Option<&mut T>)
        requires
            old(self).wf(),
        ensures
            r is Some <==> old(self).live().dom().contains(handle),
            r matches Some(v) ==> *v == old(self).live()[handle]
                && final(self).live() == old(self).live().insert(handle, *final(v))
                && final(self).wf() && final(self).minted() == old(self).minted(),
            r is None ==> *final(self) == *old(self),
    {
        let idx = handle.index as usize;
        if idx >= self.pool.len() {
            return None;
        }
        let ghost old_pool = self.pool@;
        let ghost old_live = self.live();
        let live = match &self.pool[idx] {
            Some((id, _)) => *id == handle.uid,
            None => false,
        };
        if !live {
            return None;
        }
        let slot = &mut self.pool[idx];
        match slot {
            Some((_, value)) => Some(value),
            None => None,
        }
    }
}

impl<T> ExtractionPool<T> {
    /// Every live handle was minted by the pool: its uid is at most the
    /// number of handles minted.
    pub proof fn lemma_live_handles_minted(&self)
        requires
            self.wf(),
        ensures
            forall|h: ExtractionHandle| #[trigger] self.live().dom().contains(h) ==> 1 <= h.spec_uid() <= self.minted(),
    {
    }
}

/// A handle released from a pool stays dead when the pool hands out a new
/// handle, even for the same slot: `p1` is `p0` after releasing the live
/// handle `g`, and `p2` is `p1` after acquiring `h`.
pub proof fn lemma_released_handle_stays_dead<T>(
    p0: ExtractionPool<T>,
    p1: ExtractionPool<T>,
    p2: ExtractionPool<T>,
    g: ExtractionHandle,
    h: ExtractionHandle,
    obj: T,
)
    requires
        p0.wf(),
        p0.live().dom().contains(g),
        p1.live() == p0.live().remove(g),
        p1.minted() == p0.minted(),
        p2.live() == p1.live().insert(h, obj),
        p2.minted() == p1.minted() + 1,
        h.spec_uid() == p2.minted(),
    ensures
        !p1.live().dom().contains(g),
        !p2.live().dom().contains(g),
{
    p0.lemma_live_handles_minted();
}

/// The slot a release frees is the slot the next acquisition takes, under
/// a new handle: `p1` is `p0` after releasing the live handle `g`, and `p2`
/// is `p1` after acquiring `h`.
pub proof fn lemma_freed_slot_reused<T>(
    p0: ExtractionPool<T>,
    p1: ExtractionPool<T>,
    p2: ExtractionPool<T>,
    g: ExtractionHandle,
    h: ExtractionHandle,
    obj: T,
)
    requires
        p0.wf(),
        p0.live().dom().contains(g),
        p1.live() == p0.live().remove(g),
        p1.minted() == p0.minted(),
        p1.free_slots() == p0.free_slots().push(g.spec_index()),
        p2.live() == p1.live().insert(h, obj),
        p2.minted() == p1.minted() + 1,
        h.spec_uid() == p2.minted(),
        h.spec_index() == p1.free_slots().last(),
        p2.free_slots() == p1.free_slots().drop_last(),
    ensures
        h.spec_index() == g.spec_index(),
        h != g,
        p2.free_slots() == p0.free_slots(),
{
    p0.lemma_live_handles_minted();
    assert(p1.free_slots().drop_last() =~= p0.free_slots());
}

} // verus!
