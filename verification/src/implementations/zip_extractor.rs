use vstd::prelude::*;
use std::io::Cursor;
use zip::ZipArchive;
use crate::content::{Content, ContentType};
use crate::content_path::ContentPath;
use crate::context::{str_from_utf8, ExtractionContext};
use crate::implementations::buffer_content::BufferContent;
use crate::interfaces::{ContentExtractor, Entry, ExtractionSession};

verus! {

#[verifier::external_type_specification]
#[verifier::external_body]
#[verifier::reject_recursive_types(Inner)]
pub struct ExCursor<Inner>(Cursor<Inner>);

#[verifier::external_type_specification]
#[verifier::external_body]
#[verifier::reject_recursive_types(Reader)]
pub struct ExZipArchive<Reader>(ZipArchive<Reader>);

/// The members of an archive, in central-directory order: whether the
/// member is a directory, its uncompressed size, the bytes of its enclosed
/// name (`None` when the stored name is not a safe relative path), and its
/// decompressed bytes.
pub uninterp spec fn zip_members(archive: ZipArchive<Cursor<Vec<u8>>>) -> Seq<(bool, u64, Option<Seq<u8>>, Seq<u8>)>;

pub open spec fn opt_bytes(o: Option<Vec<u8>>) -> Option<Seq<u8>> {
    match o {
        Some(v) => Some(v@),
        None => None,
    }
}

/// What `ZipArchive::new` makes of the bytes `data`: the members of the
/// archive they hold, in the form of `zip_members`, or `None` when no
/// readable central directory is found.
pub uninterp spec fn zip_parse(data: Seq<u8>) -> Option<Seq<(bool, u64, Option<Seq<u8>>, Seq<u8>)>>;

/// `ZipArchive::new` over an in-memory cursor on `data`: the archive, or
/// `None` when its central directory cannot be read. Parsing reads only
/// `data`, so which bytes open, and to what members, is `zip_parse`.
#[verifier::external_body]
fn zip_open(data: Vec<u8>) -> (r: Option<ZipArchive<Cursor<Vec<u8>>>>)
    ensures
        r is Some <==> zip_parse(data@) is Some,
        r matches Some(a) ==> zip_parse(data@) == Some(zip_members(a)),
{
    ZipArchive::new(Cursor::new(data)).ok()
}

/// `ZipArchive::len`: the number of members.
#[verifier::external_body]
fn zip_len(archive: &ZipArchive<Cursor<Vec<u8>>>) -> (r: usize)
    ensures
        r == zip_members(*archive).len(),
{
    archive.len()
}

/// `ZipArchive::by_index`, read for the member's `is_dir`, `size` and
/// `enclosed_name` (as its encoded bytes). `None` when there is no member
/// `index` or it cannot be opened; when that happens for an existing member
/// is not stated. The members are unchanged.
#[verifier::external_body]
fn zip_member_info(archive: &mut ZipArchive<Cursor<Vec<u8>>>, index: usize) -> (r: Option<(bool, u64, Option<Vec<u8>>)>)
    ensures
        zip_members(*final(archive)) == zip_members(*old(archive)),
        r matches Some(m) ==> {
            &&& index < zip_members(*old(archive)).len()
            &&& m.0 == zip_members(*old(archive))[index as int].0
            &&& m.1 == zip_members(*old(archive))[index as int].1
            &&& opt_bytes(m.2) == zip_members(*old(archive))[index as int].2
        },
{
    match archive.by_index(index) {
        Ok(file) => {
            let name = match file.enclosed_name() {
                Some(p) => Some(p.into_os_string().into_encoded_bytes()),
                None => None,
            };
            Some((file.is_dir(), file.size(), name))
        },
        Err(_) => None,
    }
}

/// `ZipArchive::by_index` then `Read::read_to_end`: the member's
/// decompressed bytes, or `None` when it cannot be opened or decompressed
/// (when that happens for an existing member is not stated). The members
/// are unchanged.
#[verifier::external_body]
fn zip_member_data(archive: &mut ZipArchive<Cursor<Vec<u8>>>, index: usize) -> (r: Option<Vec<u8>>)
    ensures
        zip_members(*final(archive)) == zip_members(*old(archive)),
        r matches Some(v) ==> index < zip_members(*old(archive)).len() && v@ == zip_members(*old(archive))[index as int].3,
{
    match archive.by_index(index) {
        Ok(mut file) => {
            let mut data: Vec<u8> = Vec::new();
            match std::io::Read::read_to_end(&mut file, &mut data) {
                Ok(_) => Some(data),
                Err(_) => None,
            }
        },
        Err(_) => None,
    }
}

/// `String::from_utf8_lossy`: a printable rendering of `bytes`, invalid
/// sequences replaced. Nothing is stated of the rendering.
#[verifier::external_body]
fn lossy_string(bytes: &[u8]) -> (r: String) {
    String::from_utf8_lossy(bytes).into_owned()
}

/// Reads `content` from its start to its advertised size. `None` when a
/// read fails before that size; a read that gives no bytes ends the data
/// early.
fn read_all<T: ContentType>(content: &mut Box<dyn Content<T>>) -> (r: Option<Vec<u8>>) {
    let size = content.size();
    let mut data: Vec<u8> = Vec::new();
    let mut pos: u64 = 0;
    while pos < size
        decreases size - pos,
    {
        let remaining = size - pos;
        let want: u32 = if remaining > 0xFFFF_FFFFu64 { 0xFFFF_FFFFu32 } else { remaining as u32 };
        match content.read(pos, want) {
            Some(chunk) => {
                if chunk.len() == 0 {
                    break;
                }
                let take: usize = if (chunk.len() as u64) > remaining { remaining as usize } else { chunk.len() };
                let mut j: usize = 0;
                while j < take
                    invariant
                        take <= chunk@.len(),
                    decreases take - j,
                {
                    data.push(chunk[j]);
                    j = j + 1;
                }
                pos = pos + take as u64;
            },
            None => {
                return None;
            },
        }
    }
    Some(data)
}

/// The path of a member named by `name`: exact when the bytes are UTF-8,
/// otherwise a lossy printable form that keeps the bytes; empty when the
/// member has no safe name.
pub open spec fn member_path_bytes(name: Option<Seq<u8>>) -> Seq<u8> {
    match name {
        Some(b) => b,
        None => Seq::empty(),
    }
}

/// Unpacks the members of a ZIP archive: each regular member becomes an
/// in-memory child content; directory members are skipped.
pub struct ZipExtractor<T: ContentType> {
    marker: core::marker::PhantomData<T>,
}

impl<T: ContentType> ZipExtractor<T> {
    pub fn new() -> Self {
        Self { marker: core::marker::PhantomData }
    }
}

/// A walk over the members of one archive.
pub struct ZipExtractionSession {
    archive: ZipArchive<Cursor<Vec<u8>>>,
    started: bool,
    idx: usize,
    count: usize,
    entry: Entry,
    unreadable: Ghost<Set<int>>,
}

/// Where a walk resumes: after the member it stands on, or at the first
/// member when it has not started.
pub open spec fn walk_start(position: Option<int>) -> int {
    match position {
        Some(p) => p + 1,
        None => 0,
    }
}

/// Every member at positions `lo..hi` is a directory or is in
/// `unreadable`: a walk may pass over it.
pub open spec fn passable(members: Seq<(bool, u64, Option<Seq<u8>>, Seq<u8>)>, unreadable: Set<int>, lo: int, hi: int) -> bool {
    forall|j: int| lo <= j < hi ==> (#[trigger] members[j]).0 || unreadable.contains(j)
}

/// Where the `k`-th call of a fresh walk starts, given the positions `ps`
/// the earlier calls stopped at.
pub open spec fn call_start(ps: Seq<int>, k: int) -> int {
    walk_start(if k == 0 { None } else { Some(ps[k - 1]) })
}

/// The calls of a fresh walk stopped at the positions `ps`, as
/// `next_member` moves: each at a regular member, no earlier than where
/// it started, passing over only what it may pass over.
pub open spec fn walk_steps(members: Seq<(bool, u64, Option<Seq<u8>>, Seq<u8>)>, unreadable: Set<int>, ps: Seq<int>) -> bool {
    forall|k: int| 0 <= k < ps.len() ==> {
        &&& call_start(ps, k) <= ps[k] < members.len()
        &&& !(#[trigger] members[ps[k]]).0
        &&& passable(members, unreadable, call_start(ps, k), ps[k])
    }
}

proof fn lemma_walk_prefix(members: Seq<(bool, u64, Option<Seq<u8>>, Seq<u8>)>, unreadable: Set<int>, ps: Seq<int>, n: int)
    requires
        walk_steps(members, unreadable, ps),
        0 <= n <= ps.len(),
    ensures
        forall|k: int, l: int| 0 <= k < l < n ==> #[trigger] ps[k] < #[trigger] ps[l],
        forall|j: int| 0 <= j < call_start(ps, n) && !(#[trigger] members[j]).0 && !unreadable.contains(j)
            ==> exists|k: int| 0 <= k < n && ps[k] == j,
        forall|k: int| 0 <= k < n ==> #[trigger] ps[k] < call_start(ps, n),
    decreases n,
{
    if n > 0 {
        lemma_walk_prefix(members, unreadable, ps, n - 1);
        let last = n - 1;
        assert(!members[ps[last]].0);
        assert(call_start(ps, last) <= ps[last]);
        assert forall|j: int| 0 <= j < call_start(ps, n) && !(#[trigger] members[j]).0 && !unreadable.contains(j)
            implies exists|k: int| 0 <= k < n && ps[k] == j by {
            if j < call_start(ps, last) {
                let k = choose|k: int| 0 <= k < last && ps[k] == j;
                assert(0 <= k < n && ps[k] == j);
            } else if j < ps[last] {
                assert(passable(members, unreadable, call_start(ps, last), ps[last]));
                assert(members[j].0 || unreadable.contains(j));
            } else {
                assert(ps[last] == j);
            }
        }
    }
}

/// A walk run to its end hands out every member that is neither a
/// directory nor unreadable, each once, in increasing order: when a fresh
/// walk's calls stopped at the positions `ps` and one more call found no
/// further member, every regular member outside `unreadable` is at one of
/// the positions `ps`.
pub proof fn lemma_walk_complete(members: Seq<(bool, u64, Option<Seq<u8>>, Seq<u8>)>, unreadable: Set<int>, ps: Seq<int>)
    requires
        walk_steps(members, unreadable, ps),
        passable(members, unreadable, call_start(ps, ps.len() as int), members.len() as int),
    ensures
        forall|k: int, l: int| 0 <= k < l < ps.len() ==> #[trigger] ps[k] < #[trigger] ps[l],
        forall|j: int| 0 <= j < members.len() && !(#[trigger] members[j]).0 && !unreadable.contains(j) ==> ps.contains(j),
{
    lemma_walk_prefix(members, unreadable, ps, ps.len() as int);
    assert forall|j: int| 0 <= j < members.len() && !(#[trigger] members[j]).0 && !unreadable.contains(j) implies ps.contains(j) by {
        if j >= call_start(ps, ps.len() as int) {
            assert(members[j].0 || unreadable.contains(j));
        } else {
            let k = choose|k: int| 0 <= k < ps.len() && ps[k] == j;
            assert(ps[k] == j);
        }
    }
}

impl ZipExtractionSession {
    /// The members of the archive walked.
    pub closed spec fn members(&self) -> Seq<(bool, u64, Option<Seq<u8>>, Seq<u8>)> {
        zip_members(self.archive)
    }

    /// The member the walk stands on, if it has started.
    pub closed spec fn position(&self) -> Option<int> {
        if self.started { Some(self.idx as int) } else { None }
    }

    pub closed spec fn spec_entry(&self) -> Entry {
        self.entry
    }

    /// The positions of the members the walk found it could not open.
    pub closed spec fn spec_unreadable(&self) -> Set<int> {
        self.unreadable@
    }

    pub closed spec fn wf(&self) -> bool {
        &&& self.count == zip_members(self.archive).len()
        &&& self.started ==> self.idx <= self.count
    }

    /// Opens the archive that `content` holds; `None` when its bytes cannot
    /// be read or hold no readable central directory.
    pub fn open<T: ContentType>(content: &mut Box<dyn Content<T>>) -> (r: Option<ZipExtractionSession>)
        ensures
            r matches Some(s) ==> s.wf() && s.position() is None
                && exists|data: Seq<u8>| zip_parse(data) == Some(s.members()),
    {
        match read_all(content) {
            Some(d) => Self::from_bytes(d),
            None => None,
        }
    }

    /// A walk, not started yet, over the archive that `data` holds; `None`
    /// when it holds no readable central directory.
    pub fn from_bytes(data: Vec<u8>) -> (r: Option<ZipExtractionSession>)
        ensures
            r is Some <==> zip_parse(data@) is Some,
            r matches Some(s) ==> {
                &&& s.wf()
                &&& s.position() is None
                &&& zip_parse(data@) == Some(s.members())
            },
    {
        let archive = match zip_open(data) {
            Some(a) => a,
            None => {
                return None;
            },
        };
        let count = zip_len(&archive);
        Some(ZipExtractionSession {
            archive,
            started: false,
            idx: 0,
            count,
            entry: Entry::default(),
            unreadable: Ghost(Set::empty()),
        })
    }

    /// Moves to the next member that is not a directory and can be opened,
    /// and describes it: its size and its enclosed name (empty when it has
    /// none). `None` once the members are exhausted. Every member passed
    /// over on the way is a directory or could not be opened.
    pub fn next_member(&mut self) -> (r: Option<&Entry>)
        requires
            old(self).wf(),
        ensures
            final(self).wf(),
            final(self).members() == old(self).members(),
            old(self).spec_unreadable().subset_of(final(self).spec_unreadable()),
            match r {
                Some(e) => {
                    let i = final(self).position().unwrap();
                    &&& final(self).position() is Some
                    &&& walk_start(old(self).position()) <= i
                    &&& passable(final(self).members(), final(self).spec_unreadable(), walk_start(old(self).position()), i)
                    &&& i < final(self).members().len()
                    &&& !final(self).members()[i].0
                    &&& e.size == final(self).members()[i].1
                    &&& e.path.spec_bytes() == member_path_bytes(final(self).members()[i].2)
                    &&& !e.skip_from_filtering
                    &&& *e == final(self).spec_entry()
                },
                None => {
                    &&& (final(self).position() matches Some(p) && p >= final(self).members().len()
                        || final(self).members().len() == 0)
                    &&& passable(final(self).members(), final(self).spec_unreadable(),
                        walk_start(old(self).position()), final(self).members().len() as int)
                },
            },
    {
        let ghost lo = walk_start(old(self).position());
        loop
            invariant
                self.wf(),
                self.members() == old(self).members(),
                old(self).position() matches Some(p) ==> self.position() matches Some(q) && p <= q,
                self.started && old(self).started ==> old(self).idx <= self.idx,
                lo == walk_start(old(self).position()),
                old(self).spec_unreadable().subset_of(self.spec_unreadable()),
                self.started ==> lo <= self.idx + 1,
                passable(self.members(), self.spec_unreadable(), lo, if self.started { self.idx + 1 } else { 0 }),
            decreases (if self.started { self.count - self.idx } else { self.count + 1 }),
        {
            if !self.started {
                if self.count == 0 {
                    return None;
                }
                self.started = true;
                self.idx = 0;
            } else {
                if self.idx >= self.count {
                    return None;
                }
                self.idx = self.idx + 1;
            }
            match zip_member_info(&mut self.archive, self.idx) {
                Some(info) => {
                    let (is_dir, size, name) = info;
                    if is_dir {
                        assert(passable(self.members(), self.spec_unreadable(), lo, self.idx + 1));
                        continue;
                    }
                    self.entry.size = size;
                    self.entry.skip_from_filtering = false;
                    match name {
                        Some(bytes) => {
                            match str_from_utf8(bytes.as_slice()) {
                                Some(s) => {
                                    self.entry.path.set_from_str(s);
                                },
                                None => {
                                    let lossy = lossy_string(bytes.as_slice());
                                    self.entry.path.set_from_os_bytes(lossy, bytes);
                                },
                            }
                        },
                        None => {
                            self.entry.path.clear();
                        },
                    }
                    return Some(&self.entry);
                },
                None => {
                    proof {
                        self.unreadable@ = self.unreadable@.insert(self.idx as int);
                    }
                },
            }
        }
    }

    /// The member the walk stands on, decompressed into memory at the
    /// printable form of its path; `None` when it cannot be decompressed.
    pub fn extract_member<T: ContentType>(&mut self) -> (r: Option<BufferContent<T>>)
        requires
            old(self).wf(),
        ensures
            final(self).wf(),
            final(self).members() == old(self).members(),
            final(self).position() == old(self).position(),
            final(self).spec_entry() == old(self).spec_entry(),
            r matches Some(c) ==> {
                &&& old(self).position() is Some
                &&& old(self).position().unwrap() < old(self).members().len()
                &&& c.spec_buffer() == old(self).members()[old(self).position().unwrap()].3
                &&& c.spec_path().printable() == old(self).spec_entry().path.printable()
                &&& c.spec_content_type() is None
            },
    {
        if !self.started {
            return None;
        }
        match zip_member_data(&mut self.archive, self.idx) {
            Some(data) => {
                let path = self.entry.path.as_printable_string().to_owned();
                Some(BufferContent::from_parts(data, path, None))
            },
            None => None,
        }
    }
}

impl<T: ContentType + 'static> ExtractionSession<T> for ZipExtractionSession {
    /// On a session whose walk is intact, as [`next_member`](ZipExtractionSession::next_member);
    /// otherwise `None`, with the session unchanged.
    fn advance(&mut self, content: &mut Box<dyn Content<T>>) -> (r: Option<&Entry>)
        ensures
            final(self).members() == old(self).members(),
            !old(self).wf() ==> r is None && *final(self) == *old(self),
            old(self).wf() ==> final(self).wf(),
            old(self).spec_unreadable().subset_of(final(self).spec_unreadable()),
            old(self).wf() ==> match r {
                Some(e) => passable(final(self).members(), final(self).spec_unreadable(),
                    walk_start(old(self).position()), final(self).position().unwrap()),
                None => passable(final(self).members(), final(self).spec_unreadable(),
                    walk_start(old(self).position()), final(self).members().len() as int),
            },
            match r {
                Some(e) => {
                    let i = final(self).position().unwrap();
                    &&& final(self).position() is Some
                    &&& (old(self).position() matches Some(p) ==> p < i)
                    &&& i < final(self).members().len()
                    &&& !final(self).members()[i].0
                    &&& e.size == final(self).members()[i].1
                    &&& e.path.spec_bytes() == member_path_bytes(final(self).members()[i].2)
                    &&& !e.skip_from_filtering
                    &&& *e == final(self).spec_entry()
                },
                None => {
                    ||| !old(self).wf()
                    ||| final(self).position() matches Some(p) && p >= final(self).members().len()
                    ||| final(self).members().len() == 0
                },
            },
    {
        if self.count != zip_len(&self.archive) {
            return None;
        }
        if self.started && self.idx > self.count {
            return None;
        }
        self.next_member()
    }

    /// On a session whose walk is intact, the member it stands on, as
    /// [`extract_member`](ZipExtractionSession::extract_member) gives it;
    /// otherwise `None`. The walk does not move.
    fn extract(&mut self, content: &mut Box<dyn Content<T>>) -> (r: Option<Box<dyn Content<T>>>)
        ensures
            final(self).members() == old(self).members(),
            final(self).position() == old(self).position(),
            final(self).spec_entry() == old(self).spec_entry(),
            old(self).wf() ==> final(self).wf(),
            r is Some ==> {
                &&& old(self).wf()
                &&& old(self).position() matches Some(p)
                &&& p < old(self).members().len()
            },
    {
        if self.count != zip_len(&self.archive) {
            return None;
        }
        if self.started && self.idx > self.count {
            return None;
        }
        match self.extract_member::<T>() {
            Some(c) => Some(Box::new(c)),
            None => None,
        }
    }
}

impl<T: ContentType + 'static> ContentExtractor<T> for ZipExtractor<T> {
    fn create_session(
        &mut self,
        content: &mut Box<dyn Content<T>>,
        extract_context: &ExtractionContext,
    ) -> Option<Box<dyn ExtractionSession<T>>> {
        match ZipExtractionSession::open(content) {
            Some(s) => Some(Box::new(s)),
            None => None,
        }
    }
}

impl<T: ContentType> Default for ZipExtractor<T> {
    fn default() -> Self {
        Self::new()
    }
}

} // verus!
