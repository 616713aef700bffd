use vstd::prelude::*;
use vstd::utf8::encode_utf8;
use crate::arena::{bytes_to_vec, slice_range};
use crate::content::{Content, ContentType};
use crate::content_path::ContentPath;

verus! {

/// An in-memory [`Content`] backed by an owned byte buffer.
pub struct BufferContent<T: ContentType> {
    buffer: Vec<u8>,
    path: ContentPath,
    content_type: Option<T>,
}

/// What reading `count` bytes at `offset` of `buf` gives: `None` past the
/// end, otherwise up to `count` bytes from `offset`.
pub open spec fn buffer_read(buf: Seq<u8>, offset: u64, count: u32) -> Option<Seq<u8>> {
    if offset > buf.len() {
        None
    } else {
        let n = if buf.len() - offset < count { buf.len() - offset } else { count as int };
        Some(buf.subrange(offset as int, offset + n))
    }
}

impl<T: ContentType> BufferContent<T> {
    /// The bytes held.
    pub closed spec fn spec_buffer(&self) -> Seq<u8> {
        self.buffer@
    }

    pub closed spec fn spec_path(&self) -> ContentPath {
        self.path
    }

    pub closed spec fn spec_content_type(&self) -> Option<T> {
        self.content_type
    }

    /// A copy of `buffer` at the synthetic address `path`; the scanner
    /// identifies its type.
    pub fn new(buffer: &[u8], path: &str) -> (r: Self)
        ensures
            r.spec_buffer() == buffer@,
            r.spec_path().printable() == path@,
            r.spec_path().lossless(),
            r.spec_content_type() is None,
    {
        Self { buffer: bytes_to_vec(buffer), path: ContentPath::from_str(path), content_type: None }
    }

    /// A copy of `buffer` at `path`, of the known type `content_type`.
    pub fn with_content_type(buffer: &[u8], path: &str, content_type: T) -> (r: Self)
        ensures
            r.spec_buffer() == buffer@,
            r.spec_path().printable() == path@,
            r.spec_path().lossless(),
            r.spec_content_type() == Some(content_type),
    {
        Self { buffer: bytes_to_vec(buffer), path: ContentPath::from_str(path), content_type: Some(content_type) }
    }

    /// A content taking ownership of `buffer` and `path`.
    pub fn from_parts(buffer: Vec<u8>, path: String, content_type: Option<T>) -> (r: Self)
        ensures
            r.spec_buffer() == buffer@,
            r.spec_path().printable() == path@,
            r.spec_path().lossless(),
            r.spec_content_type() == content_type,
    {
        Self { buffer, path: ContentPath::with_string(path), content_type }
    }
}

impl<T: ContentType> Content<T> for BufferContent<T> {
    closed spec fn spec_path_of(&self) -> &ContentPath {
        &self.path
    }

    closed spec fn spec_declared_type(&self) -> Option<T> {
        self.content_type
    }

    closed spec fn spec_size_of(&self) -> u64 {
        self.buffer@.len() as u64
    }

    fn content_type(&self) -> (r: Option<T>)
        ensures
            r == self.spec_content_type(),
    {
        self.content_type
    }

    fn path(&self) -> (r: &ContentPath)
        ensures
            *r == self.spec_path(),
    {
        &self.path
    }

    fn size(&self) -> (r: u64)
        ensures
            r == self.spec_buffer().len(),
    {
        self.buffer.len() as u64
    }

    fn read(&mut self, offset: u64, count: u32) -> (r: Option<&[u8]>)
        ensures
            *final(self) == *old(self),
            match r {
                Some(b) => buffer_read(old(self).spec_buffer(), offset, count) == Some(b@),
                None => buffer_read(old(self).spec_buffer(), offset, count) is None,
            },
    {
        let len = self.buffer.len() as u64;
        if offset > len {
            return None;
        }
        let remaining = len - offset;
        let n: u64 = if remaining < count as u64 { remaining } else { count as u64 };
        Some(slice_range(self.buffer.as_slice(), offset as usize, (offset + n) as usize))
    }
}

} // verus!
