use vstd::prelude::*;
use crate::content::{Content, ContentType};
use crate::content_path::ContentPath;

verus! {

/// A [`Content`] standing for a directory: it carries only a path and a
/// content type, its size is `0` and reading it gives nothing. A folder
/// extractor registered for the same type enumerates its entries.
pub struct FolderContent<T: ContentType> {
    path: ContentPath,
    content_type: T,
}

impl<T: ContentType> FolderContent<T> {
    pub closed spec fn spec_path(&self) -> ContentPath {
        self.path
    }

    pub closed spec fn spec_content_type(&self) -> T {
        self.content_type
    }

    /// A folder at `path`, tagged as `content_type`.
    pub fn with_content_type(path: ContentPath, content_type: T) -> (r: Self)
        ensures
            r.spec_path() == path,
            r.spec_content_type() == content_type,
    {
        Self { path, content_type }
    }
}

impl<T: ContentType> Content<T> for FolderContent<T> {
    closed spec fn spec_path_of(&self) -> &ContentPath {
        &self.path
    }

    closed spec fn spec_declared_type(&self) -> Option<T> {
        Some(self.content_type)
    }

    closed spec fn spec_size_of(&self) -> u64 {
        0
    }

    fn path(&self) -> (r: &ContentPath)
        ensures
            *r == self.spec_path(),
    {
        &self.path
    }

    fn size(&self) -> (r: u64)
        ensures
            r == 0,
    {
        0
    }

    fn read(&mut self, offset: u64, count: u32) -> (r: Option<&[u8]>)
        ensures
            r is None,
    {
        None
    }

    fn content_type(&self) -> (r: Option<T>)
        ensures
            r == Some(self.spec_content_type()),
    {
        Some(self.content_type)
    }
}

/// What a directory entry that is a link points to.
#[derive(Clone, Copy, Debug, PartialEq, Eq, Structural)]
pub enum LinkTarget {
    /// A directory.
    Folder,
    /// A regular file of this many bytes.
    File(u64),
    /// Nothing: the link is dangling, or its target cannot be read.
    Missing,
}

/// What a folder walk learned about one directory entry: whether the entry
/// itself is a directory, where it leads when it is a link, and its own
/// length when known.
#[derive(Clone, Copy, Debug, PartialEq, Eq, Structural)]
pub struct DirEntryInfo {
    pub is_dir: bool,
    pub link: Option<LinkTarget>,
    pub len: Option<u64>,
}

/// How a folder walk emits an entry: as a folder to descend into (exempt
/// from the filter) or as a file of `size` bytes.
#[derive(Clone, Copy, Debug, PartialEq, Eq, Structural)]
pub struct DirEntryDecision {
    pub is_folder: bool,
    pub size: u64,
    pub skip_from_filtering: bool,
}

/// The decision for `info`: links to folders and dangling links are
/// skipped (so link cycles cannot make a walk loop); a link to a file is a
/// file of the target's size; folders are skipped unless the walk is
/// recursive and are exempt from filtering; a file's size is its own
/// length, `0` when unknown.
pub open spec fn spec_entry_decision(info: DirEntryInfo, recursive: bool) -> Option<DirEntryDecision> {
    match info.link {
        Some(LinkTarget::Folder) => None,
        Some(LinkTarget::Missing) => None,
        Some(LinkTarget::File(len)) => Some(DirEntryDecision { is_folder: false, size: len, skip_from_filtering: false }),
        None => if info.is_dir {
            if recursive { Some(DirEntryDecision { is_folder: true, size: 0, skip_from_filtering: true }) } else { None }
        } else {
            Some(DirEntryDecision {
                is_folder: false,
                size: match info.len { Some(l) => l, None => 0 },
                skip_from_filtering: false,
            })
        },
    }
}

/// Decides whether a folder walk emits the directory entry `info`, and
/// how; `None` skips it.
pub fn folder_entry_decision(info: DirEntryInfo, recursive: bool) -> (r: Option<DirEntryDecision>)
    ensures
        r == spec_entry_decision(info, recursive),
{
    let is_folder = match info.link {
        Some(LinkTarget::Folder) => {
            return None;
        },
        Some(LinkTarget::Missing) => {
            return None;
        },
        Some(LinkTarget::File(_)) => false,
        None => info.is_dir,
    };
    if !recursive && is_folder {
        return None;
    }
    let size = if is_folder {
        0
    } else {
        match info.link {
            Some(LinkTarget::File(len)) => len,
            _ => match info.len {
                Some(l) => l,
                None => 0,
            },
        }
    };
    Some(DirEntryDecision { is_folder, size, skip_from_filtering: is_folder })
}

} // verus!
