use vstd::prelude::*;
use vstd::utf8::encode_utf8;

verus! {

/// A path or address identifying a piece of content.
///
/// In the common case this is a filesystem path, but it can also hold a
/// synthetic address such as `archive.zip://inner/file.txt`. A
/// `ContentPath` always exposes a valid UTF-8 printable string for display
/// and filtering; when the underlying OS path is not valid UTF-8 its true
/// bytes are kept beside the lossy string, so the file itself can still
/// be opened.
pub struct ContentPath {
    /// Always valid UTF-8; for a non-UTF-8 OS path, its lossy rendering.
    path: String,
    /// The faithful path bytes, present only when `path` is lossy.
    os: Option<Vec<u8>>,
}

impl ContentPath {
    /// The printable form.
    pub closed spec fn printable(&self) -> Seq<char> {
        self.path@
    }

    /// The bytes used for inspection, filtering and matching: the faithful
    /// OS bytes when the printable form is lossy, its UTF-8 encoding
    /// otherwise.
    pub closed spec fn spec_bytes(&self) -> Seq<u8> {
        match self.os {
            Some(b) => b@,
            None => encode_utf8(self.path@),
        }
    }

    /// The printable form is exact.
    pub closed spec fn lossless(&self) -> bool {
        self.os is None
    }

    /// A path from a UTF-8 string: synthetic addresses and paths already
    /// known to be valid UTF-8. The result is lossless.
    pub fn from_str(s: &str) -> (r: Self)
        ensures
            r.printable() == s@,
            r.spec_bytes() == encode_utf8(s@),
            r.lossless(),
    {
        Self { path: s.to_owned(), os: None }
    }

    /// A lossless path taking ownership of `path`.
    pub fn with_string(path: String) -> (r: Self)
        ensures
            r.printable() == path@,
            r.spec_bytes() == encode_utf8(path@),
            r.lossless(),
    {
        Self { path, os: None }
    }

    /// A path whose printable form `lossy` stands for the non-UTF-8 OS
    /// path `bytes`.
    pub fn from_os_bytes(lossy: String, bytes: Vec<u8>) -> (r: Self)
        ensures
            r.printable() == lossy@,
            r.spec_bytes() == bytes@,
            !r.lossless(),
    {
        Self { path: lossy, os: Some(bytes) }
    }

    /// An empty, exact path.
    pub fn empty() -> (r: Self)
        ensures
            r.printable() == Seq::<char>::empty(),
            r.spec_bytes() == Seq::<u8>::empty(),
            r.lossless(),
    {
        let r = Self { path: String::new(), os: None };
        proof {
            vstd::utf8::encode_utf8_valid_utf8(Seq::<char>::empty());
            assert(encode_utf8(Seq::<char>::empty()) =~= Seq::<u8>::empty());
        }
        r
    }

    /// Resets to an empty, exact path.
    pub fn clear(&mut self)
        ensures
            final(self).printable() == Seq::<char>::empty(),
            final(self).spec_bytes() == Seq::<u8>::empty(),
            final(self).lossless(),
    {
        self.path = String::new();
        self.os = None;
        proof {
            vstd::utf8::encode_utf8_valid_utf8(Seq::<char>::empty());
            assert(encode_utf8(Seq::<char>::empty()) =~= Seq::<u8>::empty());
        }
    }

    /// Overwrites this path from a UTF-8 string.
    pub fn set_from_str(&mut self, s: &str)
        ensures
            final(self).printable() == s@,
            final(self).spec_bytes() == encode_utf8(s@),
            final(self).lossless(),
    {
        self.path = s.to_owned();
        self.os = None;
    }

    /// Overwrites this path with the non-UTF-8 OS path `bytes`, printed as
    /// `lossy`.
    pub fn set_from_os_bytes(&mut self, lossy: String, bytes: Vec<u8>)
        ensures
            final(self).printable() == lossy@,
            final(self).spec_bytes() == bytes@,
            !final(self).lossless(),
    {
        self.path = lossy;
        self.os = Some(bytes);
    }

    /// The bytes for inspection, filtering and matching.
    pub fn as_bytes(&self) -> (r: &[u8])
        ensures
            r@ == self.spec_bytes(),
    {
        match &self.os {
            Some(b) => b.as_slice(),
            None => self.path.as_str().as_bytes(),
        }
    }

    /// A valid UTF-8 string safe to print or log; lossy when
    /// [`is_lossless`](Self::is_lossless) is `false`.
    pub fn as_printable_string(&self) -> (r: &str)
        ensures
            r@ == self.printable(),
    {
        self.path.as_str()
    }

    /// The printable string is an exact representation of the path.
    pub fn is_lossless(&self) -> (r: bool)
        ensures
            r == self.lossless(),
    {
        self.os.is_none()
    }
}

} // verus!
