use vstd::prelude::*;
use crate::content::ContentType;
use crate::utils::{bytes_equal, bytes_start_with};

verus! {

/// `pattern` is a prefix of `data`.
pub open spec fn is_prefix_of(pattern: Seq<u8>, data: Seq<u8>) -> bool {
    pattern.len() <= data.len() && data.take(pattern.len() as int) == pattern
}

/// Matches a single pattern that stands for a single content type.
pub struct OneMatcher<T: ContentType> {
    content_type: T,
    data: &'static [u8],
}

impl<T: ContentType> OneMatcher<T> {
    pub closed spec fn spec_content_type(&self) -> T {
        self.content_type
    }

    pub closed spec fn pattern(&self) -> Seq<u8> {
        self.data@
    }

    pub fn new(content_type: T, data: &'static [u8]) -> (r: Self)
        ensures
            r.spec_content_type() == content_type,
            r.pattern() == data@,
    {
        Self { content_type, data }
    }

    /// The content type when `data` begins with the pattern.
    pub fn starts_with(&self, data: &[u8]) -> (r: Option<T>)
        ensures
            r == (if is_prefix_of(self.pattern(), data@) { Some(self.spec_content_type()) } else { None }),
    {
        if bytes_start_with(data, self.data) {
            Some(self.content_type)
        } else {
            None
        }
    }

    /// The content type when `data` is exactly the pattern.
    pub fn matches_exactly(&self, data: &[u8]) -> (r: Option<T>)
        ensures
            r == (if data@ == self.pattern() { Some(self.spec_content_type()) } else { None }),
    {
        if bytes_equal(data, self.data) {
            Some(self.content_type)
        } else {
            None
        }
    }
}

} // verus!
