use vstd::prelude::*;

verus! {

/// Where a byte string lies in a [`BufferArena`].
#[derive(Copy, Clone, PartialEq, Eq, Structural, Debug)]
pub struct ArenaIndex {
    pub pos: u32,
    pub size: u32,
}

/// An index that no arena resolves.
pub open spec fn invalid_index() -> ArenaIndex {
    ArenaIndex { pos: 0xFFFF_FFFFu32, size: 0xFFFF_FFFFu32 }
}

impl ArenaIndex {
    /// An index that no arena resolves.
    pub fn invalid() -> (r: ArenaIndex)
        ensures
            r == invalid_index(),
    {
        ArenaIndex { pos: 0xFFFF_FFFFu32, size: 0xFFFF_FFFFu32 }
    }
}

/// An append-only byte store: strings are copied in once and read back by
/// [`ArenaIndex`].
pub struct BufferArena {
    buf: Vec<u8>,
}

/// Where the bytes of `index` end: its position plus its size, saturated
/// at `u32::MAX`.
pub open spec fn index_end(index: ArenaIndex) -> int {
    if index.pos + index.size <= 0xFFFF_FFFF { index.pos + index.size } else { 0xFFFF_FFFF }
}

/// What [`BufferArena::get`] gives back for `index` from an arena holding `buf`.
pub open spec fn arena_slice(buf: Seq<u8>, index: ArenaIndex) -> Option<Seq<u8>> {
    if index_end(index) <= buf.len() {
        Some(buf.subrange(index.pos as int, index_end(index)))
    } else {
        None
    }
}

/// Appending to an arena keeps what every index already resolved to.
pub proof fn lemma_slice_kept(a: Seq<u8>, b: Seq<u8>, index: ArenaIndex)
    requires
        a.is_prefix_of(b),
        arena_slice(a, index) is Some,
    ensures
        arena_slice(b, index) == arena_slice(a, index),
{
    assert(b.subrange(index.pos as int, index_end(index)) =~= a.subrange(index.pos as int, index_end(index)));
}

impl BufferArena {
    /// The bytes stored so far.
    pub closed spec fn view(&self) -> Seq<u8> {
        self.buf@
    }

    /// The arena never holds more than `u32::MAX` bytes, so every stored
    /// string has an exact index.
    pub open spec fn wf(&self) -> bool {
        self@.len() <= 0xFFFF_FFFF
    }

    pub fn new() -> (r: Self)
        ensures
            r@ == Seq::<u8>::empty(),
            r.wf(),
    {
        Self { buf: Vec::new() }
    }

    /// Forgets every stored string.
    pub fn clear(&mut self)
        ensures
            final(self)@ == Seq::<u8>::empty(),
            final(self).wf(),
    {
        self.buf.clear();
    }

    /// Stores a copy of `data` and returns its index. When the arena would
    /// exceed `u32::MAX` bytes nothing is stored and the index is
    /// [`ArenaIndex::invalid`].
    pub fn allocate(&mut self, data: &[u8]) -> (r: ArenaIndex)
        requires
            old(self).wf(),
        ensures
            final(self).wf(),
            if old(self)@.len() + data@.len() <= 0xFFFF_FFFF {
                &&& final(self)@ == old(self)@ + data@
                &&& r == (ArenaIndex { pos: old(self)@.len() as u32, size: data@.len() as u32 })
                &&& arena_slice(final(self)@, r) == Some(data@)
            } else {
                &&& final(self)@ == old(self)@
                &&& r == invalid_index()
            },
            forall|i: ArenaIndex| #[trigger] arena_slice(old(self)@, i) is Some
                ==> arena_slice(final(self)@, i) == arena_slice(old(self)@, i),
    {
        let index = self.buf.len();
        if data.len() > 0xFFFF_FFFFusize - index {
            return ArenaIndex::invalid();
        }
        let mut i: usize = 0;
        while i < data.len()
            invariant
                i <= data@.len(),
                index == old(self)@.len(),
                self.buf@ == old(self)@ + data@.take(i as int),
            decreases data@.len() - i,
        {
            self.buf.push(data[i]);
            assert(data@.take(i + 1) == data@.take(i as int).push(data@[i as int]));
            i = i + 1;
        }
        assert(data@.take(data@.len() as int) == data@);
        let r = ArenaIndex { pos: index as u32, size: data.len() as u32 };
        assert(self.buf@.subrange(index as int, index + data@.len()) =~= data@);
        proof {
            assert forall|j: ArenaIndex| #[trigger] arena_slice(old(self)@, j) is Some
                implies arena_slice(self.buf@, j) == arena_slice(old(self)@, j) by {
                assert(self.buf@.subrange(j.pos as int, j.pos + j.size) =~= old(self)@.subrange(j.pos as int, j.pos + j.size));
            }
        }
        r
    }

    /// The bytes stored at `index`, or `None` when it lies past the end.
    pub fn get(&self, index: ArenaIndex) -> (r: Option<&[u8]>)
        requires
            self.wf(),
        ensures
            match r {
                Some(s) => arena_slice(self@, index) == Some(s@),
                None => arena_slice(self@, index) is None,
            },
    {
        let end = index.pos.saturating_add(index.size) as usize;
        if end > self.buf.len() {
            None
        } else {
            Some(slice_range(self.buf.as_slice(), index.pos as usize, end))
        }
    }
}

/// The bytes of `s` from `start` to `end`.
pub fn slice_range(s: &[u8], start: usize, end: usize) -> (r: &[u8])
    requires
        start <= end <= s@.len(),
    ensures
        r@ == s@.subrange(start as int, end as int),
{
    let (_, tail) = s.split_at(start);
    let (mid, _) = tail.split_at(end - start);
    assert(mid@ =~= s@.subrange(start as int, end as int));
    mid
}

/// An owned copy of `s`.
pub fn bytes_to_vec(s: &[u8]) -> (r: Vec<u8>)
    ensures
        r@ == s@,
{
    let mut v: Vec<u8> = Vec::new();
    let mut i: usize = 0;
    while i < s.len()
        invariant
            i <= s@.len(),
            v@ == s@.take(i as int),
        decreases s@.len() - i,
    {
        v.push(s[i]);
        assert(s@.take(i + 1) == s@.take(i as int).push(s@[i as int]));
        i = i + 1;
    }
    assert(s@.take(s@.len() as int) == s@);
    v
}

} // verus!
