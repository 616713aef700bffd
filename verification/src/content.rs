use vstd::prelude::*;
use crate::content_path::ContentPath;

verus! {

/// Enumeration of content kinds understood by a scanner.
///
/// A `ContentType` is typically a user-defined `#[repr(u16)]` enum. It maps
/// each variant to a stable `u16` identifier that the framework uses for
/// dispatch to identifiers, analyzers, and extractors.
///
/// Implementations promise that [`as_u16`](Self::as_u16) is unique per
/// variant and strictly less than [`COUNT`](Self::COUNT), and that
/// [`from_u16`](Self::from_u16) is its inverse.
pub trait ContentType: Copy + Eq + PartialEq + core::fmt::Debug {
    /// Total number of variants of this type.
    const COUNT: u16;

    /// The identifier of this variant, as [`as_u16`](Self::as_u16) returns it.
    spec fn id(&self) -> u16;

    /// Returns the stable `u16` identifier for this variant.
    fn as_u16(&self) -> (r: u16)
        ensures
            r == self.id(),
            r < Self::COUNT;

    /// Reconstructs a variant from its `u16` identifier.
    fn from_u16(value: u16) -> (r: Option<Self>)
        ensures
            match r {
                Some(t) => t.id() == value,
                None => forall|t: Self| #[trigger] t.id() != value,
            };

    /// Distinct variants have distinct identifiers.
    proof fn lemma_id_unique(a: Self, b: Self)
        requires
            a.id() == b.id(),
        ensures
            a == b;
}

/// `false` maps to `0`, `true` to `1`, and `COUNT` is `2`.
impl ContentType for bool {
    const COUNT: u16 = 2;

    open spec fn id(&self) -> u16 {
        if *self { 1 } else { 0 }
    }

    fn as_u16(&self) -> (r: u16) {
        if *self { 1 } else { 0 }
    }

    fn from_u16(value: u16) -> (r: Option<Self>) {
        if value == 0 {
            Some(false)
        } else if value == 1 {
            Some(true)
        } else {
            None
        }
    }

    proof fn lemma_id_unique(a: Self, b: Self) {
    }
}

/// A byte-addressable piece of content the scanner can operate on.
///
/// Implementors expose a [`ContentPath`], a total size, and a way to read
/// arbitrary byte ranges, so analyzers and extractors can request the
/// windows they need without the whole payload being buffered up front.
pub trait Content<T: ContentType> {
    /// The type this content declares, as
    /// [`content_type`](Self::content_type) gives it.
    spec fn spec_declared_type(&self) -> Option<T>;

    /// The content type, when it is already known (`None` when the scanner
    /// is to identify it). When this returns `Some(ty)` the scanner skips
    /// its own identification and uses `ty`.
    fn content_type(&self) -> (r: Option<T>)
        ensures
            r == self.spec_declared_type();

    /// The path of this content, as [`path`](Self::path) gives it.
    spec fn spec_path_of(&self) -> &ContentPath;

    /// The path associated with this content (possibly synthetic, such as
    /// an archive member's address).
    fn path(&self) -> (r: &ContentPath)
        ensures
            r == self.spec_path_of();

    /// The size of this content, as [`size`](Self::size) gives it.
    spec fn spec_size_of(&self) -> u64;

    /// The total size of the content in bytes.
    fn size(&self) -> (r: u64)
        ensures
            r == self.spec_size_of();

    /// Reads up to `count` bytes starting at `offset`: `Some(&[])` exactly
    /// at the end, `None` past it or when the source cannot fulfil the
    /// request. May return fewer bytes than asked for; a short slice is
    /// not the end of the content.
    fn read(&mut self, offset: u64, count: u32) -> Option<&[u8]>;
}

/// How many bytes a reader whose cursor is at `offset` asks of a content
/// of `size` bytes to fill a buffer of `buf_len` bytes.
pub open spec fn reader_want(offset: u64, size: u64, buf_len: usize) -> Option<u32> {
    if buf_len == 0 || offset >= size {
        None
    } else {
        let remaining = size - offset;
        let m = if buf_len < remaining { buf_len as int } else { remaining };
        Some(if m < 0xFFFF_FFFF { m as u32 } else { 0xFFFF_FFFFu32 })
    }
}

/// The read a stream reader over a content makes: `None` when the buffer
/// is empty or the cursor is at or past the end (the stream gives no more
/// bytes), otherwise the buffer length capped by what remains of the
/// content and by `u32::MAX`.
pub fn reader_request(offset: u64, size: u64, buf_len: usize) -> (r: Option<u32>)
    ensures
        r == reader_want(offset, size, buf_len),
{
    if buf_len == 0 || offset >= size {
        return None;
    }
    let remaining = size - offset;
    let m: u64 = if (buf_len as u64) < remaining { buf_len as u64 } else { remaining };
    Some(if m < 0xFFFF_FFFFu64 { m as u32 } else { 0xFFFF_FFFFu32 })
}

/// What a stream reader does with `got` bytes that a content gave for a
/// buffer of `buf_len` bytes, its cursor at `offset`: it copies as many as
/// fit and moves the cursor past them. The returned pair is the number of
/// bytes copied and the new cursor.
pub fn reader_step(offset: u64, got: usize, buf_len: usize) -> (r: (usize, u64))
    requires
        offset + (if got < buf_len { got } else { buf_len }) <= u64::MAX,
    ensures
        r.0 == (if got < buf_len { got } else { buf_len }),
        r.1 == offset + r.0,
{
    let n = if got < buf_len { got } else { buf_len };
    (n, offset + n as u64)
}

/// Where a seek by `delta` from `base` lands: `None` when that position
/// is negative or past `u64::MAX`.
pub fn seek_target(base: u64, delta: i64) -> (r: Option<u64>)
    ensures
        r == (if 0 <= base + delta <= u64::MAX { Some((base + delta) as u64) } else { None::<u64> }),
{
    let t: i128 = base as i128 + delta as i128;
    if t < 0 || t > 0xFFFF_FFFF_FFFF_FFFFi128 {
        None
    } else {
        Some(t as u64)
    }
}

} // verus!
