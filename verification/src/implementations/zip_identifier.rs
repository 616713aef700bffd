use vstd::prelude::*;
use crate::content::{Content, ContentType};
use crate::interfaces::{ContentIdentifier, IdentifyMethod};

verus! {

/// Signature of a ZIP end-of-central-directory record: `PK\x05\x06`.
pub open spec fn eocd_signature() -> Seq<u8> {
    seq![0x50u8, 0x4bu8, 0x05u8, 0x06u8]
}

/// Length of the comment announced by the record starting at `i`.
pub open spec fn comment_len(buf: Seq<u8>, i: int) -> int {
    buf[i + 20] as int + 256 * buf[i + 21] as int
}

/// A complete end-of-central-directory record starts at `i` of `buf`
/// (which lies at offset `ofs` of a content of `size` bytes), and its
/// comment ends exactly at the end of the content.
pub open spec fn eocd_tail_at(buf: Seq<u8>, i: int, ofs: int, size: int) -> bool {
    &&& i + 22 <= buf.len()
    &&& ofs + i + 22 + comment_len(buf, i) == size
}

/// `buf` holds an end-of-central-directory record whose comment ends at
/// the end of the content.
pub open spec fn has_eocd(buf: Seq<u8>, ofs: int, size: int) -> bool {
    &&& buf.len() >= 22
    &&& exists|i: int| 0 <= i && i + 4 <= buf.len() && #[trigger] buf.subrange(i, i + 4) == eocd_signature()
        && eocd_tail_at(buf, i, ofs, size)
}

/// Where the last `span` bytes of a content of `size` bytes start.
pub open spec fn window_start(size: u64, span: u32) -> u64 {
    if size < span { 0 } else { (size - span) as u64 }
}

/// The window of the last `span` bytes of a content of `size` bytes: its
/// start and its length (all of the content when it is shorter).
pub fn zip_window(size: u64, span: u32) -> (r: (u64, u32))
    ensures
        r.0 == window_start(size, span),
        r.1 == if size < span { size as u32 } else { span },
        r.0 + r.1 == size,
{
    if size < span as u64 { (0, size as u32) } else { (size - span as u64, span) }
}

/// The verdict on bytes `tail` read at `tail_start` of a content of `size`
/// bytes: the content holds at least an end-of-central-directory record
/// and `tail` holds one that ends the content.
pub open spec fn zip_verdict_spec(size: u64, tail: Seq<u8>, tail_start: u64) -> bool {
    size >= 22 && has_eocd(tail, tail_start as int, size as int)
}

/// Decides [`zip_verdict_spec`].
pub fn zip_verdict(size: u64, tail: &[u8], tail_start: u64) -> (r: bool)
    ensures
        r == zip_verdict_spec(size, tail@, tail_start),
{
    size >= 22 && ZipIdentifier::<bool>::contains_eocd(tail, tail_start, size)
}

/// Identifies ZIP archives: the local-file magic `PK\x03\x04` as a
/// pre-filter, then an end-of-central-directory record in the tail of the
/// content.
pub struct ZipIdentifier<T: ContentType> {
    marker: core::marker::PhantomData<T>,
}

impl<T: ContentType> ZipIdentifier<T> {
    pub fn new() -> Self {
        Self { marker: core::marker::PhantomData }
    }

    /// A record that starts at `i` is complete and ends the content.
    fn eocd_tail_ok(buf: &[u8], i: usize, ofs: u64, size: u64) -> (r: bool)
        ensures
            r == eocd_tail_at(buf@, i as int, ofs as int, size as int),
    {
        if i > buf.len() || buf.len() - i < 22 {
            return false;
        }
        let comment = buf[i + 20] as u128 + 256 * (buf[i + 21] as u128);
        (ofs as u128) + (i as u128) + 22 + comment == size as u128
    }

    /// `buf`, found at offset `ofs` of a content of `size` bytes, holds an
    /// end-of-central-directory record that ends the content.
    pub fn contains_eocd(buf: &[u8], ofs: u64, size: u64) -> (r: bool)
        ensures
            r == has_eocd(buf@, ofs as int, size as int),
    {
        if buf.len() < 22 {
            return false;
        }
        let mut i: usize = buf.len() - 4 + 1;
        while i > 0
            invariant
                buf@.len() >= 22,
                i <= buf@.len() - 3,
                forall|j: int| i <= j && j + 4 <= buf@.len() ==> !(#[trigger] buf@.subrange(j, j + 4) == eocd_signature()
                    && eocd_tail_at(buf@, j, ofs as int, size as int)),
            decreases i,
        {
            i = i - 1;
            let sig = buf[i] == 0x50u8 && buf[i + 1] == 0x4bu8 && buf[i + 2] == 0x05u8 && buf[i + 3] == 0x06u8;
            assert(sig == (buf@.subrange(i as int, i + 4) == eocd_signature())) by {
                if sig {
                    assert(buf@.subrange(i as int, i + 4) =~= eocd_signature());
                }
                if buf@.subrange(i as int, i + 4) == eocd_signature() {
                    assert(buf@.subrange(i as int, i + 4)[0] == buf@[i as int]);
                    assert(buf@.subrange(i as int, i + 4)[1] == buf@[i + 1]);
                    assert(buf@.subrange(i as int, i + 4)[2] == buf@[i + 2]);
                    assert(buf@.subrange(i as int, i + 4)[3] == buf@[i + 3]);
                }
            }
            if sig && Self::eocd_tail_ok(buf, i, ofs, size) {
                return true;
            }
        }
        false
    }
}

impl<T: ContentType> ContentIdentifier<T> for ZipIdentifier<T> {
    /// The local-file magic `PK\x03\x04`.
    fn identify_method(&self) -> (r: Option<IdentifyMethod>)
        ensures
            r matches Some(IdentifyMethod::Magic(m)) && m@ == seq![0x50u8, 0x4bu8, 0x03u8, 0x04u8],
    {
        Some(IdentifyMethod::Magic(&[0x50u8, 0x4bu8, 0x03u8, 0x04u8]))
    }

    /// Looks for the record in the last 512 bytes, then in the last
    /// 65557 bytes (the record and the longest comment). What the reads
    /// give is up to the content: the verdict is [`zip_verdict_spec`] on
    /// the bytes the first read gave (none when it failed), or else on the
    /// bytes gathered from the second window.
    fn validate(&self, content: &mut Box<dyn Content<T>>) -> (r: bool)
        ensures
            exists|quick: Seq<u8>, tail: Seq<u8>| {
                &&& tail.len() <= 65557
                &&& r == (#[trigger] zip_verdict_spec(old(content).spec_size_of(), quick,
                        window_start(old(content).spec_size_of(), 512))
                    || #[trigger] zip_verdict_spec(old(content).spec_size_of(), tail,
                        window_start(old(content).spec_size_of(), 65557)))
            },
    {
        let size = content.size();
        let ghost quick_seen: Seq<u8> = Seq::empty();
        if size < 22 {
            assert(!zip_verdict_spec(size, Seq::<u8>::empty(), window_start(size, 512)));
            assert(!zip_verdict_spec(size, Seq::<u8>::empty(), window_start(size, 65557)));
            return false;
        }
        let (quick_start, quick_len) = zip_window(size, 512);
        match content.read(quick_start, quick_len) {
            Some(b) => {
                if zip_verdict(size, b, quick_start) {
                    assert(zip_verdict_spec(size, b@, window_start(size, 512)));
                    assert(!zip_verdict_spec(size, Seq::<u8>::empty(), window_start(size, 65557)));
                    return true;
                }
                proof {
                    quick_seen = b@;
                }
            },
            None => {},
        }
        assert(!zip_verdict_spec(size, quick_seen, window_start(size, 512)));
        let capacity: usize = 65557;
        let mut buf: Vec<u8> = Vec::new();
        let (region_start, _) = zip_window(size, 65557);
        let mut pos: u64 = region_start;
        while pos < size
            invariant
                buf@.len() <= capacity,
                capacity == 65557,
            decreases size - pos,
        {
            let remains = size - pos;
            let want: u32 = if remains < 65557 { remains as u32 } else { 65557 };
            match content.read(pos, want) {
                Some(bf) => {
                    if bf.len() == 0 {
                        break;
                    }
                    let mut k: usize = 0;
                    while k < bf.len() && buf.len() < capacity
                        invariant
                            k <= bf@.len(),
                            buf@.len() <= capacity,
                        decreases bf@.len() - k,
                    {
                        buf.push(bf[k]);
                        k = k + 1;
                    }
                    if (bf.len() as u64) >= size - pos {
                        break;
                    }
                    pos = pos + bf.len() as u64;
                },
                None => {
                    break;
                },
            }
        }
        let r = zip_verdict(size, buf.as_slice(), region_start);
        assert(r == (zip_verdict_spec(size, quick_seen, window_start(size, 512))
            || zip_verdict_spec(size, buf@, window_start(size, 65557))));
        r
    }
}

impl<T: ContentType> Default for ZipIdentifier<T> {
    fn default() -> Self {
        Self::new()
    }
}

} // verus!
