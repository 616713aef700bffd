use vstd::prelude::*;
use vstd::utf8::valid_utf8;
use vstd::string::StringSliceAdditionalSpecFns;
use varmap::{PoolHandle, VarMap, VarMapPool};
use crate::arena::{arena_slice, invalid_index, ArenaIndex, BufferArena};
use crate::content::ContentType;
use crate::interfaces::{FindingMetadata, ScanObserver};
use crate::varmaps::{
    clear_varmap, live_handles, pool_map, varmap_entries, varmap_has, new_pool, new_varmap, pool_allocate, pool_clear_keep_smallest, pool_get, varmap_set,
    pool_get_mut, pool_release,
};

verus! {

/// The index that stands for "no object".
pub const INVALID_INDEX: u32 = 0xFFFF_FFFFu32;

/// One scanned content object, as a node of the result tree.
#[derive(Clone, Copy)]
pub struct Object {
    pub path: ArenaIndex,
    pub parent_index: u32,
    pub next_sibling_index: u32,
    pub varmap_handle: Option<PoolHandle>,
    pub first_child_index: u32,
    pub last_child_index: u32,
    pub type_id: u16,
}

/// Object `j` exists and its parent is `p`.
pub open spec fn has_parent(objs: Seq<Object>, j: int, p: int) -> bool {
    0 <= j < objs.len() && objs[j].parent_index as int == p
}

/// The links of object `i` agree with its parent pointers: its first and
/// last child are the first and last objects whose parent it is, and its
/// next sibling is the next object with the same parent.
pub open spec fn links_ok(objs: Seq<Object>, i: int) -> bool {
    let o = objs[i];
    &&& (o.parent_index == INVALID_INDEX || o.parent_index < i)
    &&& (o.first_child_index == INVALID_INDEX <==> o.last_child_index == INVALID_INDEX)
    &&& (o.first_child_index == INVALID_INDEX ==> forall|j: int| !#[trigger] has_parent(objs, j, i))
    &&& (o.first_child_index != INVALID_INDEX ==> {
        &&& has_parent(objs, o.first_child_index as int, i)
        &&& forall|j: int| j < o.first_child_index ==> !#[trigger] has_parent(objs, j, i)
        &&& has_parent(objs, o.last_child_index as int, i)
        &&& forall|j: int| j > o.last_child_index ==> !#[trigger] has_parent(objs, j, i)
    })
    &&& (o.next_sibling_index != INVALID_INDEX ==> {
        &&& o.parent_index != INVALID_INDEX
        &&& i < o.next_sibling_index
        &&& has_parent(objs, o.next_sibling_index as int, o.parent_index as int)
        &&& forall|k: int| i < k < o.next_sibling_index ==> !#[trigger] has_parent(objs, k, o.parent_index as int)
    })
    &&& (o.next_sibling_index == INVALID_INDEX && o.parent_index != INVALID_INDEX ==>
        forall|k: int| k > i ==> !#[trigger] has_parent(objs, k, o.parent_index as int))
}

/// The objects form one tree rooted at object 0, created parents first,
/// whose child and sibling links enumerate each object's children in
/// creation order.
pub open spec fn tree_wf(objs: Seq<Object>) -> bool {
    &&& objs.len() < INVALID_INDEX
    &&& forall|i: int| 0 <= i < objs.len() ==> #[trigger] links_ok(objs, i)
    &&& forall|i: int| 0 < i < objs.len() ==> (#[trigger] objs[i]).parent_index != INVALID_INDEX
    &&& (objs.len() > 0 ==> objs[0].parent_index == INVALID_INDEX)
}

/// Navigating a well-formed tree: an object's first child and last child
/// have it as their parent, its next sibling shares its parent and comes
/// after it, its parent comes before it, and only the root has no parent.
pub proof fn lemma_tree_navigation(objs: Seq<Object>, i: int)
    requires
        tree_wf(objs),
        0 <= i < objs.len(),
    ensures
        objs[i].first_child_index != INVALID_INDEX ==> {
            &&& objs[i].first_child_index < objs.len()
            &&& objs[objs[i].first_child_index as int].parent_index == i
            &&& objs[i].last_child_index < objs.len()
            &&& objs[objs[i].last_child_index as int].parent_index == i
        },
        objs[i].next_sibling_index != INVALID_INDEX ==> {
            &&& i < objs[i].next_sibling_index < objs.len()
            &&& objs[objs[i].next_sibling_index as int].parent_index == objs[i].parent_index
        },
        objs[i].parent_index != INVALID_INDEX ==> objs[i].parent_index < i,
        (objs[i].parent_index == INVALID_INDEX) == (i == 0),
{
    assert(links_ok(objs, i));
    if objs[i].first_child_index != INVALID_INDEX {
        assert(has_parent(objs, objs[i].first_child_index as int, i));
        assert(has_parent(objs, objs[i].last_child_index as int, i));
    }
    if objs[i].next_sibling_index != INVALID_INDEX {
        assert(has_parent(objs, objs[i].next_sibling_index as int, objs[i].parent_index as int));
    }
}

/// The objects of `a` and `b` have the same links.
pub open spec fn same_links(a: Seq<Object>, b: Seq<Object>) -> bool {
    &&& a.len() == b.len()
    &&& forall|k: int| 0 <= k < a.len() ==> {
        let x = #[trigger] a[k];
        let y = b[k];
        &&& x.parent_index == y.parent_index
        &&& x.first_child_index == y.first_child_index
        &&& x.last_child_index == y.last_child_index
        &&& x.next_sibling_index == y.next_sibling_index
    }
}

/// The tree shape depends on the links alone.
pub proof fn lemma_same_links(a: Seq<Object>, b: Seq<Object>)
    requires
        same_links(a, b),
        tree_wf(a),
    ensures
        tree_wf(b),
        forall|i: int| 0 <= i < b.len() ==> #[trigger] depth(b, i) == depth(a, i),
{
    assert forall|j: int, p: int| #[trigger] has_parent(b, j, p) == has_parent(a, j, p) by {
        if 0 <= j < a.len() {
            assert(a[j].parent_index == b[j].parent_index);
        }
    }
    assert forall|k: int| 0 <= k < b.len() implies #[trigger] links_ok(b, k) by {
        assert(links_ok(a, k));
        assert(a[k].parent_index == b[k].parent_index);
    }
    assert forall|i: int| 0 < i < b.len() implies (#[trigger] b[i]).parent_index != INVALID_INDEX by {
        assert(a[i].parent_index == b[i].parent_index);
    }
    if b.len() > 0 {
        assert(a[0].parent_index == b[0].parent_index);
    }
    assert forall|i: int| 0 <= i < b.len() implies #[trigger] depth(b, i) == depth(a, i) by {
        assert forall|k: int| 0 <= k <= i implies k < b.len() && k < a.len() && (#[trigger] b[k]).parent_index == a[k].parent_index by {
        }
        lemma_depth_prefix(b, a, i);
    }
}

/// The tree after object `n` (already appended, with parent `p`) is linked
/// as the last child of `p`.
pub open spec fn link_child(objs: Seq<Object>, p: int, n: u32) -> Seq<Object> {
    let par = objs[p];
    if par.first_child_index == INVALID_INDEX {
        objs.update(p, Object { first_child_index: n, last_child_index: n, ..par })
    } else {
        let ls = par.last_child_index as int;
        let o1 = objs.update(p, Object { last_child_index: n, ..par });
        o1.update(ls, Object { next_sibling_index: n, ..o1[ls] })
    }
}

/// A fresh object with parent `p`.
pub open spec fn fresh_object(path: ArenaIndex, p: u32, type_id: u16) -> Object {
    Object {
        path,
        parent_index: p,
        next_sibling_index: INVALID_INDEX,
        varmap_handle: None,
        first_child_index: INVALID_INDEX,
        last_child_index: INVALID_INDEX,
        type_id,
    }
}

/// The objects after appending a fresh object under `p` (or as the root
/// when `p` is invalid) and linking it.
pub open spec fn appended(objs: Seq<Object>, path: ArenaIndex, p: u32, type_id: u16) -> Seq<Object> {
    let pushed = objs.push(fresh_object(path, p, type_id));
    if p == INVALID_INDEX { pushed } else { link_child(pushed, p as int, objs.len() as u32) }
}

/// Appending a new object under `p` (or as the root of an empty tree) and
/// linking it keeps the tree well formed, keeps every parent, and puts the
/// new object one level below its parent.
pub proof fn lemma_append_object(objs: Seq<Object>, path: ArenaIndex, p: u32, type_id: u16)
    requires
        tree_wf(objs),
        objs.len() + 1 < INVALID_INDEX,
        (p == INVALID_INDEX && objs.len() == 0) || p < objs.len(),
    ensures
        ({
            let n = objs.len() as u32;
            let r = appended(objs, path, p, type_id);
            &&& tree_wf(r)
            &&& r.len() == objs.len() + 1
            &&& r[n as int].parent_index == p
            &&& r[n as int].path == path
            &&& r[n as int].type_id == type_id
            &&& r[n as int].varmap_handle is None
            &&& forall|i: int| 0 <= i < objs.len() ==> (#[trigger] r[i]).parent_index == objs[i].parent_index
                && r[i].path == objs[i].path && r[i].type_id == objs[i].type_id
                && r[i].varmap_handle == objs[i].varmap_handle
            &&& forall|i: int| 0 <= i < objs.len() ==> #[trigger] depth(r, i) == depth(objs, i)
            &&& depth(r, n as int) == if p == INVALID_INDEX { 1 } else { depth(objs, p as int) + 1 }
        }),
{
    let n = objs.len() as u32;
    let fresh = fresh_object(path, p, type_id);
    let pushed = objs.push(fresh);
    let r = if p == INVALID_INDEX { pushed } else { link_child(pushed, p as int, n) };
    if p != INVALID_INDEX {
        let pi = p as int;
        assert(links_ok(objs, pi));
        let par = objs[pi];
        if par.first_child_index != INVALID_INDEX {
            let ls = par.last_child_index as int;
            assert(has_parent(objs, ls, pi));
            assert(links_ok(objs, ls));
            assert(ls > pi);
        }
    }
    if p != INVALID_INDEX {
        let pi = p as int;
        let par = pushed[pi];
        if par.first_child_index != INVALID_INDEX {
            let ls = par.last_child_index as int;
            let o1 = pushed.update(pi, Object { last_child_index: n, ..par });
            assert(0 <= ls < pushed.len());
            assert(r == o1.update(ls, Object { next_sibling_index: n, ..o1[ls] }));
            assert forall|i: int| 0 <= i < r.len() implies (#[trigger] r[i]).parent_index == pushed[i].parent_index
                && r[i].path == pushed[i].path && r[i].type_id == pushed[i].type_id
                && r[i].varmap_handle == pushed[i].varmap_handle by {
                if i == ls {
                } else if i == pi {
                } else {
                    assert(r[i] == pushed[i]);
                }
            }
        } else {
            assert forall|i: int| 0 <= i < r.len() implies (#[trigger] r[i]).parent_index == pushed[i].parent_index
                && r[i].path == pushed[i].path && r[i].type_id == pushed[i].type_id
                && r[i].varmap_handle == pushed[i].varmap_handle by {
                if i != pi {
                    assert(r[i] == pushed[i]);
                }
            }
        }
    }
    assert(r.len() == objs.len() + 1);
    assert forall|i: int| 0 <= i < objs.len() implies (#[trigger] r[i]).parent_index == objs[i].parent_index
        && r[i].path == objs[i].path && r[i].type_id == objs[i].type_id
        && r[i].varmap_handle == objs[i].varmap_handle by {
        assert(pushed[i] == objs[i]);
    }
    assert(r[n as int].parent_index == p);
    // parents of the new sequence
    assert forall|j: int, q: int| #[trigger] has_parent(r, j, q) == (has_parent(objs, j, q) || (j == n && q == p as int)) by {
        if 0 <= j < objs.len() {
            assert(pushed[j] == objs[j]);
        }
    }
    assert forall|k: int| 0 <= k < r.len() implies #[trigger] links_ok(r, k) by {
        if k == n as int {
            assert forall|j: int| !#[trigger] has_parent(r, j, k) by {
                if 0 <= j < objs.len() {
                    assert(links_ok(objs, j));
                }
            }
        } else {
            assert(links_ok(objs, k));
            let o = objs[k];
            if p != INVALID_INDEX {
                let pi = p as int;
                let par = objs[pi];
                if o.parent_index != INVALID_INDEX && o.parent_index as int == pi && o.next_sibling_index == INVALID_INDEX {
                    // k is the last child of p
                    assert(par.first_child_index != INVALID_INDEX) by {
                        assert(has_parent(objs, k, pi));
                    }
                    assert(!(k > par.last_child_index as int)) by {
                        assert(has_parent(objs, k, pi));
                    }
                    assert(!(k < par.last_child_index as int)) by {
                        assert(has_parent(objs, par.last_child_index as int, pi));
                    }
                }
                if o.parent_index != INVALID_INDEX && o.parent_index as int == pi && o.next_sibling_index != INVALID_INDEX {
                    assert(par.first_child_index != INVALID_INDEX) by {
                        assert(has_parent(objs, k, pi));
                    }
                    assert(has_parent(objs, o.next_sibling_index as int, pi));
                }
            }
        }
    }
    assert forall|i: int| 0 < i < r.len() implies (#[trigger] r[i]).parent_index != INVALID_INDEX by {
        if i < objs.len() {
            assert(pushed[i] == objs[i]);
        }
    }
    assert forall|i: int| 0 <= i < objs.len() implies #[trigger] depth(r, i) == depth(objs, i) by {
        assert forall|k: int| 0 <= k <= i implies k < r.len() && k < objs.len() && (#[trigger] r[k]).parent_index == objs[k].parent_index by {
            assert(pushed[k] == objs[k]);
        }
        lemma_depth_prefix(r, objs, i);
    }
    if p != INVALID_INDEX {
        assert(depth(r, p as int) == depth(objs, p as int));
    }
}

/// The depth of object `i`: 1 for the root, one more than its parent's
/// otherwise.
pub open spec fn depth(objs: Seq<Object>, i: int) -> int
    decreases i,
{
    let p = objs[i].parent_index as int;
    if 0 <= p < i {
        1 + depth(objs, p)
    } else {
        1
    }
}

/// The depth of an object depends only on the parents up to it.
pub proof fn lemma_depth_prefix(a: Seq<Object>, b: Seq<Object>, i: int)
    requires
        0 <= i,
        forall|k: int| 0 <= k <= i ==> k < a.len() && k < b.len() && (#[trigger] a[k]).parent_index == b[k].parent_index,
    ensures
        depth(a, i) == depth(b, i),
    decreases i,
{
    let p = a[i].parent_index as int;
    if 0 <= p < i {
        lemma_depth_prefix(a, b, p);
    }
}

/// Every map handle in use is live, and no two users share one: the
/// objects' local maps, the current local map, and the parameter maps of
/// queued requests.
pub open spec fn handles_wf<T: ContentType>(
    objs: Seq<Object>,
    local: Option<PoolHandle>,
    current: Option<u32>,
    reqs: Seq<ExtractionRequest<T>>,
    live: Set<PoolHandle>,
) -> bool {
    &&& forall|i: int| 0 <= i < objs.len() && (#[trigger] objs[i]).varmap_handle is Some
        ==> live.contains(objs[i].varmap_handle->0)
    &&& forall|i: int, j: int| 0 <= i < objs.len() && 0 <= j < objs.len() && i != j
        && (#[trigger] objs[i]).varmap_handle is Some ==> objs[i].varmap_handle != (#[trigger] objs[j]).varmap_handle
    &&& (local matches Some(h) ==> live.contains(h)
        && forall|i: int| 0 <= i < objs.len() && (#[trigger] objs[i]).varmap_handle == Some(h) ==> current == Some(i as u32))
    &&& forall|r: int| 0 <= r < reqs.len() && (#[trigger] reqs[r]).params_handle is Some ==> {
        let h = reqs[r].params_handle->0;
        &&& live.contains(h)
        &&& local != Some(h)
        &&& forall|i: int| 0 <= i < objs.len() ==> (#[trigger] objs[i]).varmap_handle != Some(h)
        &&& forall|q: int| 0 <= q < reqs.len() && q != r ==> (#[trigger] reqs[q]).params_handle != Some(h)
    }
}

/// An extraction an analyzer asked for, waiting to run.
#[derive(Clone, Copy)]
pub struct ExtractionRequest<T: ContentType> {
    pub content_type: T,
    pub start: u64,
    pub len: Option<u64>,
    pub params_handle: Option<PoolHandle>,
}

/// A finding as stored: the object it belongs to and its strings in the
/// arena.
pub struct InternalFinding<M: FindingMetadata> {
    pub objindex: u32,
    pub finding: ArenaIndex,
    pub source: ArenaIndex,
    pub metadata: Option<M>,
}

/// Mutable state shared with plugins during a scan: the global and
/// per-object variable maps, the tree of scanned objects, queued
/// extraction requests, and findings.
#[verifier::reject_recursive_types(T)]
#[verifier::reject_recursive_types(M)]
pub struct Context<T: ContentType, M: FindingMetadata> {
    pub(crate) global: VarMap,
    pub(crate) objects: Vec<Object>,
    pub(crate) path_arena: BufferArena,
    pub(crate) varmap_pool: VarMapPool,
    pub(crate) local_varmap_handle: Option<PoolHandle>,
    pub(crate) current_object_index: Option<u32>,
    pub(crate) extraction_requests_stack: Vec<ExtractionRequest<T>>,
    pub(crate) findings: Vec<InternalFinding<M>>,
    pub(crate) store_findings: bool,
    pub(crate) observer: Option<Box<dyn ScanObserver<T, M>>>,
}

/// What a plugin can do to a well-formed context through its public
/// methods: the context stays well-formed, the object tree keeps its shape
/// (only the current object may gain a local map), strings and requests
/// are only appended, and the current object does not change.
pub open spec fn plugin_step<T: ContentType, M: FindingMetadata>(a: Context<T, M>, b: Context<T, M>) -> bool {
    &&& b.wf()
    &&& b.spec_objects().len() == a.spec_objects().len()
    &&& forall|i: int| 0 <= i < a.spec_objects().len() ==> {
        let x = #[trigger] a.spec_objects()[i];
        let y = b.spec_objects()[i];
        &&& y.path == x.path
        &&& y.parent_index == x.parent_index
        &&& y.next_sibling_index == x.next_sibling_index
        &&& y.first_child_index == x.first_child_index
        &&& y.last_child_index == x.last_child_index
        &&& y.type_id == x.type_id
        &&& (x.varmap_handle is Some ==> y.varmap_handle == x.varmap_handle)
        &&& (a.spec_current() != Some(i as u32) ==> y.varmap_handle == x.varmap_handle)
    }
    &&& b.spec_current() == a.spec_current()
    &&& a.spec_arena().is_prefix_of(b.spec_arena())
    &&& a.spec_requests().len() <= b.spec_requests().len()
    &&& b.spec_requests().take(a.spec_requests().len() as int) == a.spec_requests()
    &&& b.spec_store_findings() == a.spec_store_findings()
}

/// Plugin steps compose.
pub proof fn lemma_plugin_step_trans<T: ContentType, M: FindingMetadata>(a: Context<T, M>, b: Context<T, M>, c: Context<T, M>)
    requires
        plugin_step(a, b),
        plugin_step(b, c),
    ensures
        plugin_step(a, c),
{
    assert forall|i: int| 0 <= i < a.spec_objects().len() implies {
        let x = #[trigger] a.spec_objects()[i];
        let y = c.spec_objects()[i];
        &&& y.path == x.path
        &&& y.parent_index == x.parent_index
        &&& y.next_sibling_index == x.next_sibling_index
        &&& y.first_child_index == x.first_child_index
        &&& y.last_child_index == x.last_child_index
        &&& y.type_id == x.type_id
        &&& (x.varmap_handle is Some ==> y.varmap_handle == x.varmap_handle)
        &&& (a.spec_current() != Some(i as u32) ==> y.varmap_handle == x.varmap_handle)
    } by {
        let m = b.spec_objects()[i];
        assert(m == b.spec_objects()[i]);
    }
    assert(c.spec_requests().take(a.spec_requests().len() as int)
        =~= c.spec_requests().take(b.spec_requests().len() as int).take(a.spec_requests().len() as int));
}

/// A well-formed context holds a well-formed tree.
pub proof fn lemma_wf_tree<T: ContentType, M: FindingMetadata>(ctx: Context<T, M>)
    requires
        ctx.wf(),
    ensures
        tree_wf(ctx.spec_objects()),
{
}

impl<T: ContentType, M: FindingMetadata> Context<T, M> {
    /// The scanned objects, in the order they were created.
    pub closed spec fn spec_objects(&self) -> Seq<Object> {
        self.objects@
    }

    /// The stored findings.
    pub closed spec fn spec_findings(&self) -> Seq<InternalFinding<M>> {
        self.findings@
    }

    /// The queued extraction requests.
    pub closed spec fn spec_requests(&self) -> Seq<ExtractionRequest<T>> {
        self.extraction_requests_stack@
    }

    /// The object that plugins currently report on.
    pub closed spec fn spec_current(&self) -> Option<u32> {
        self.current_object_index
    }

    /// Findings are retained.
    pub closed spec fn spec_store_findings(&self) -> bool {
        self.store_findings
    }

    /// The interned strings.
    pub closed spec fn spec_arena(&self) -> Seq<u8> {
        self.path_arena@
    }

    /// The live handles of the map pool.
    pub closed spec fn spec_live(&self) -> Set<PoolHandle> {
        live_handles(self.varmap_pool)
    }

    /// The map the pool keeps under `handle`.
    pub closed spec fn spec_map_of(&self, handle: PoolHandle) -> VarMap {
        pool_map(self.varmap_pool, handle)
    }

    /// The map shared across the scan.
    pub closed spec fn spec_global(&self) -> VarMap {
        self.global
    }

    /// The local map handle of the object being scanned.
    pub closed spec fn spec_local(&self) -> Option<PoolHandle> {
        self.local_varmap_handle
    }

    pub closed spec fn wf(&self) -> bool {
        &&& self.path_arena.wf()
        &&& tree_wf(self.objects@)
        &&& (self.current_object_index matches Some(c) ==> c < self.objects@.len()
            && self.objects@[c as int].varmap_handle == self.local_varmap_handle)
        &&& forall|k: int| 0 <= k < self.findings@.len() ==> (#[trigger] self.findings@[k]).objindex < self.objects@.len()
        &&& handles_wf(self.objects@, self.local_varmap_handle, self.current_object_index,
            self.extraction_requests_stack@, live_handles(self.varmap_pool))
    }

    pub(crate) fn new(observer: Option<Box<dyn ScanObserver<T, M>>>, store_findings: bool) -> (r: Self)
        ensures
            r.wf(),
            r.spec_objects() == Seq::<Object>::empty(),
            r.spec_findings() == Seq::<InternalFinding<M>>::empty(),
            r.spec_requests() == Seq::<ExtractionRequest<T>>::empty(),
            r.spec_current() is None,
            r.spec_store_findings() == store_findings,
            r.spec_live() == Set::<PoolHandle>::empty(),
    {
        Self {
            global: new_varmap(),
            objects: Vec::new(),
            path_arena: BufferArena::new(),
            varmap_pool: new_pool(),
            local_varmap_handle: None,
            current_object_index: None,
            extraction_requests_stack: Vec::new(),
            findings: Vec::new(),
            store_findings,
            observer,
        }
    }

    /// The observer, if any, to notify; notifying it changes nothing else
    /// in the context.
    pub(crate) fn observer_mut(&mut self) -> (r: Option<&mut Box<dyn ScanObserver<T, M>>>)
        ensures
            final(self).wf() == old(self).wf(),
            final(self).spec_objects() == old(self).spec_objects(),
            final(self).spec_findings() == old(self).spec_findings(),
            final(self).spec_requests() == old(self).spec_requests(),
            final(self).spec_current() == old(self).spec_current(),
            final(self).spec_store_findings() == old(self).spec_store_findings(),
            final(self).spec_arena() == old(self).spec_arena(),
            final(self).spec_live() == old(self).spec_live(),
            final(self).spec_global() == old(self).spec_global(),
            final(self).spec_local() == old(self).spec_local(),
            forall|h: PoolHandle| #[trigger] final(self).spec_map_of(h) == old(self).spec_map_of(h),
    {
        match &mut self.observer {
            Some(o) => Some(o),
            None => None,
        }
    }

    /// Forgets everything from the previous scan: objects, strings, maps,
    /// requests and findings.
    pub(crate) fn clear(&mut self)
        ensures
            final(self).wf(),
            final(self).spec_objects() == Seq::<Object>::empty(),
            final(self).spec_findings() == Seq::<InternalFinding<M>>::empty(),
            final(self).spec_requests() == Seq::<ExtractionRequest<T>>::empty(),
            final(self).spec_current() is None,
            final(self).spec_store_findings() == old(self).spec_store_findings(),
            final(self).spec_live() == Set::<PoolHandle>::empty(),
            final(self).spec_arena() == Seq::<u8>::empty(),
            final(self).spec_local() is None,
            varmap_entries(final(self).spec_global()) == 0,
    {
        clear_varmap(&mut self.global);
        self.objects.clear();
        self.path_arena.clear();
        pool_clear_keep_smallest(&mut self.varmap_pool, 128);
        self.local_varmap_handle = None;
        self.current_object_index = None;
        self.extraction_requests_stack.clear();
        self.findings.clear();
    }

    /// The map shared across the entire scan.
    pub fn global(&mut self) -> (r: &mut VarMap)
        ensures
            *r == old(self).spec_global(),
            final(self).spec_global() == *final(r),
            final(self).spec_objects() == old(self).spec_objects(),
            final(self).spec_findings() == old(self).spec_findings(),
            final(self).spec_requests() == old(self).spec_requests(),
            final(self).spec_live() == old(self).spec_live(),
            old(self).wf() ==> final(self).wf(),
            old(self).wf() ==> plugin_step(*old(self), *final(self)),
    {
        proof {
            assert(self.extraction_requests_stack@.take(self.extraction_requests_stack@.len() as int) == self.extraction_requests_stack@);
        }
        &mut self.global
    }

    /// The number of content objects processed so far in this scan.
    pub fn objects_scanned(&self) -> (r: u32)
        requires
            self.wf(),
        ensures
            r == self.spec_objects().len(),
    {
        self.objects.len() as u32
    }
}


impl<T: ContentType, M: FindingMetadata> Context<T, M> {
    /// The map attached to the object being scanned, created on first use
    /// for that object.
    pub fn local(&mut self) -> (r: &mut VarMap)
        requires
            old(self).wf(),
        ensures
            final(self).wf(),
            final(self).spec_objects().len() == old(self).spec_objects().len(),
            forall|i: int| 0 <= i < old(self).spec_objects().len() ==> {
                let a = #[trigger] old(self).spec_objects()[i];
                let b = final(self).spec_objects()[i];
                &&& b.path == a.path
                &&& b.parent_index == a.parent_index
                &&& b.next_sibling_index == a.next_sibling_index
                &&& b.first_child_index == a.first_child_index
                &&& b.last_child_index == a.last_child_index
                &&& b.type_id == a.type_id
                &&& (a.varmap_handle is Some ==> b.varmap_handle == a.varmap_handle)
                &&& (old(self).spec_current() != Some(i as u32) ==> b.varmap_handle == a.varmap_handle)
            },
            old(self).spec_current() matches Some(c) ==> final(self).spec_objects()[c as int].varmap_handle is Some,
            final(self).spec_local() is Some,
            old(self).spec_local() matches Some(h) ==> final(self).spec_local() == Some(h) && *r == old(self).spec_map_of(h),
            old(self).spec_local() is None ==> varmap_entries(*r) == 0,
            final(self).spec_findings() == old(self).spec_findings(),
            final(self).spec_requests() == old(self).spec_requests(),
            final(self).spec_current() == old(self).spec_current(),
            final(self).spec_arena() == old(self).spec_arena(),
            final(self).spec_store_findings() == old(self).spec_store_findings(),
            plugin_step(*old(self), *final(self)),
    {
        proof {
            assert(self.extraction_requests_stack@.take(self.extraction_requests_stack@.len() as int) == self.extraction_requests_stack@);
        }
        if self.local_varmap_handle.is_none() {
            let handle = pool_allocate(&mut self.varmap_pool);
            self.local_varmap_handle = Some(handle);
            if let Some(idx) = self.current_object_index {
                let mut o = self.objects[idx as usize];
                o.varmap_handle = Some(handle);
                let ghost before = self.objects@;
                self.objects.set(idx as usize, o);
                proof {
                    lemma_same_links(before, self.objects@);
                }
            }
        }
        let h = match self.local_varmap_handle {
            Some(h) => h,
            None => {
                proof { assert(false); }
                return &mut self.global;
            }
        };
        match pool_get_mut(&mut self.varmap_pool, h) {
            Some(m) => m,
            None => &mut self.global,
        }
    }

    /// Records a finding on the object being scanned, when findings are
    /// retained; without a current object it is dropped.
    pub fn add_finding(&mut self, finding: &str, source: Option<&str>, metadata: Option<M>)
        requires
            old(self).wf(),
        ensures
            final(self).wf(),
            final(self).spec_objects() == old(self).spec_objects(),
            final(self).spec_requests() == old(self).spec_requests(),
            final(self).spec_current() == old(self).spec_current(),
            final(self).spec_live() == old(self).spec_live(),
            final(self).spec_findings() == if old(self).spec_store_findings() && old(self).spec_current() is Some {
                old(self).spec_findings().push(final(self).spec_findings().last())
            } else {
                old(self).spec_findings()
            },
            old(self).spec_store_findings() && old(self).spec_current() is Some ==> {
                let f = final(self).spec_findings().last();
                &&& f.objindex == old(self).spec_current()->0
                &&& f.metadata == metadata
                &&& old(self).spec_arena().len() + finding.spec_bytes().len()
                    + (if let Some(src) = source { src.spec_bytes().len() as int } else { 0int }) <= 0xFFFF_FFFF
                    ==> arena_slice(final(self).spec_arena(), f.finding) == Some(finding.spec_bytes())
                &&& (source is None ==> f.source == invalid_index())
            },
            plugin_step(*old(self), *final(self)),
    {
        proof {
            assert(self.extraction_requests_stack@.take(self.extraction_requests_stack@.len() as int) == self.extraction_requests_stack@);
        }
        if let Some(objindex) = self.current_object_index {
            match &mut self.observer {
                Some(o) => {
                    let path: &str = match self.path_arena.get(self.objects[objindex as usize].path) {
                        Some(b) => match str_from_utf8(b) {
                            Some(p) => p,
                            None => "",
                        },
                        None => "",
                    };
                    let meta: Option<&M> = match &metadata {
                        Some(m) => Some(m),
                        None => None,
                    };
                    o.on_finding(path, finding, source, meta);
                },
                None => {},
            }
        }
        if !self.store_findings {
            return;
        }
        if let Some(objindex) = self.current_object_index {
            let source_index = match source {
                Some(src) => self.path_arena.allocate(src.as_bytes()),
                None => ArenaIndex::invalid(),
            };
            let finding_index = self.path_arena.allocate(finding.as_bytes());
            let f = InternalFinding { objindex, finding: finding_index, source: source_index, metadata };
            self.findings.push(f);
        }
    }

    /// Starts a request to run the extractors of `content_type` on a region
    /// of the current object; commit it with
    /// [`ExtractRequestBuilder::emit`].
    pub fn request_extract(&self, content_type: T) -> (r: ExtractRequestBuilder<T>)
        ensures
            r.spec_content_type() == content_type,
            r.spec_start() == 0,
            r.spec_len() is None,
            !r.spec_has_params(),
            r.spec_param_count() == 0,
            forall|k: varmap::Key| !r.spec_has_param(k),
    {
        ExtractRequestBuilder { content_type, start: 0, len: None, params: new_varmap(), has_params: false }
    }
}

impl<T: ContentType, M: FindingMetadata> Context<T, M> {
    /// Leaves the current object: no object is current and no local map is
    /// selected.
    pub(crate) fn leave_object(&mut self)
        requires
            old(self).wf(),
        ensures
            final(self).wf(),
            final(self).spec_objects() == old(self).spec_objects(),
            final(self).spec_requests() == old(self).spec_requests(),
            final(self).spec_arena() == old(self).spec_arena(),
            final(self).spec_store_findings() == old(self).spec_store_findings(),
            final(self).spec_current() is None,
            final(self).spec_local() is None,
    {
        self.local_varmap_handle = None;
        self.current_object_index = None;
    }

    /// Records a new object with the interned path `path_bytes` under
    /// `parent_index` (the root of an empty tree when invalid), links it as
    /// its parent's last child, and makes it the current object.
    pub(crate) fn add_object(&mut self, path_bytes: &[u8], parent_index: u32, type_id: u16) -> (r: u32)
        requires
            old(self).wf(),
            old(self).spec_objects().len() + 1 < INVALID_INDEX,
            (parent_index == INVALID_INDEX && old(self).spec_objects().len() == 0)
                || parent_index < old(self).spec_objects().len(),
            old(self).spec_local() is None,
            old(self).spec_current() is None,
        ensures
            final(self).wf(),
            r == old(self).spec_objects().len(),
            final(self).spec_objects().len() == old(self).spec_objects().len() + 1,
            forall|i: int| 0 <= i < old(self).spec_objects().len() ==>
                (#[trigger] final(self).spec_objects()[i]).parent_index == old(self).spec_objects()[i].parent_index
                && final(self).spec_objects()[i].path == old(self).spec_objects()[i].path
                && final(self).spec_objects()[i].type_id == old(self).spec_objects()[i].type_id,
            forall|i: int| 0 <= i < old(self).spec_objects().len() ==>
                #[trigger] depth(final(self).spec_objects(), i) == depth(old(self).spec_objects(), i),
            final(self).spec_objects()[r as int].parent_index == parent_index,
            final(self).spec_objects()[r as int].type_id == type_id,
            old(self).spec_arena().len() + path_bytes@.len() <= 0xFFFF_FFFF
                ==> arena_slice(final(self).spec_arena(), final(self).spec_objects()[r as int].path) == Some(path_bytes@),
            depth(final(self).spec_objects(), r as int) == if parent_index == INVALID_INDEX {
                1
            } else {
                depth(old(self).spec_objects(), parent_index as int) + 1
            },
            final(self).spec_current() == Some(r),
            final(self).spec_local() is None,
            final(self).spec_requests() == old(self).spec_requests(),
            old(self).spec_arena().is_prefix_of(final(self).spec_arena()),
            final(self).spec_store_findings() == old(self).spec_store_findings(),
    {
        let ghost objs0 = self.objects@;
        let ghost arena0 = self.path_arena@;
        let path_index = self.path_arena.allocate(path_bytes);
        proof {
            assert(arena0.is_prefix_of(self.path_arena@)) by {
                assert(self.path_arena@.take(arena0.len() as int) =~= arena0);
            }
        }
        let my_index = self.objects.len() as u32;
        let obj = Object {
            path: path_index,
            parent_index,
            next_sibling_index: INVALID_INDEX,
            varmap_handle: None,
            first_child_index: INVALID_INDEX,
            last_child_index: INVALID_INDEX,
            type_id,
        };
        assert(obj == fresh_object(path_index, parent_index, type_id));
        self.objects.push(obj);
        let ghost pushed = self.objects@;
        proof {
            lemma_append_object(objs0, path_index, parent_index, type_id);
        }
        if parent_index != INVALID_INDEX {
            proof {
                assert(links_ok(objs0, parent_index as int));
                assert(pushed[parent_index as int] == objs0[parent_index as int]);
            }
            let mut par = self.objects[parent_index as usize];
            let mut last_sibling = INVALID_INDEX;
            if par.first_child_index == INVALID_INDEX {
                par.first_child_index = my_index;
            } else {
                last_sibling = par.last_child_index;
            }
            par.last_child_index = my_index;
            self.objects.set(parent_index as usize, par);
            if last_sibling != INVALID_INDEX {
                proof {
                    assert(has_parent(objs0, last_sibling as int, parent_index as int));
                }
                let mut ls = self.objects[last_sibling as usize];
                ls.next_sibling_index = my_index;
                self.objects.set(last_sibling as usize, ls);
            }
            assert(self.objects@ =~= link_child(pushed, parent_index as int, my_index));
        }
        assert(self.objects@ == appended(objs0, path_index, parent_index, type_id));
        self.current_object_index = Some(my_index);
        proof {
            let objs = self.objects@;
            assert forall|k: int| 0 <= k < self.findings@.len() implies
                (#[trigger] self.findings@[k]).objindex < objs.len() by {}
            assert forall|i: int| 0 <= i < objs.len() && (#[trigger] objs[i]).varmap_handle is Some
                implies live_handles(self.varmap_pool).contains(objs[i].varmap_handle->0) by {
                assert(objs0[i] == objs0[i]);
            }
        }
        my_index
    }

    /// Releases the parameter maps of the requests queued from `start` on
    /// and drops those requests.
    pub(crate) fn restore_requests(&mut self, start: usize)
        requires
            old(self).wf(),
            start <= old(self).spec_requests().len(),
        ensures
            final(self).wf(),
            final(self).spec_requests() == old(self).spec_requests().take(start as int),
            final(self).spec_objects() == old(self).spec_objects(),
            final(self).spec_arena() == old(self).spec_arena(),
            final(self).spec_store_findings() == old(self).spec_store_findings(),
            final(self).spec_current() == old(self).spec_current(),
    {
        let ghost reqs0 = self.extraction_requests_stack@;
        let mut i: usize = start;
        while i < self.extraction_requests_stack.len()
            invariant
                self.wf(),
                start <= i <= self.extraction_requests_stack@.len(),
                self.extraction_requests_stack@.len() == reqs0.len(),
                forall|j: int| 0 <= j < start ==> #[trigger] self.extraction_requests_stack@[j] == reqs0[j],
                self.spec_objects() == old(self).spec_objects(),
                self.spec_arena() == old(self).spec_arena(),
                self.spec_store_findings() == old(self).spec_store_findings(),
                self.spec_current() == old(self).spec_current(),
            decreases reqs0.len() - i,
        {
            let mut req = self.extraction_requests_stack[i];
            if let Some(handle) = req.params_handle {
                let ghost reqs = self.extraction_requests_stack@;
                pool_release(&mut self.varmap_pool, handle);
                req.params_handle = None;
                self.extraction_requests_stack.set(i, req);
                proof {
                    assert(handles_wf(self.objects@, self.local_varmap_handle, self.current_object_index,
                        self.extraction_requests_stack@, live_handles(self.varmap_pool))) by {
                        assert forall|r: int| 0 <= r < self.extraction_requests_stack@.len() && r != i implies
                            #[trigger] self.extraction_requests_stack@[r] == reqs[r] by {}
                    }
                }
            }
            i = i + 1;
        }
        self.extraction_requests_stack.truncate(start);
        proof {
            assert(self.extraction_requests_stack@ =~= reqs0.take(start as int));
        }
    }

    /// The request at `index`.
    pub(crate) fn request(&self, index: usize) -> (r: ExtractionRequest<T>)
        requires
            index < self.spec_requests().len(),
        ensures
            r == self.spec_requests()[index as int],
    {
        self.extraction_requests_stack[index]
    }

    /// The number of queued requests.
    pub(crate) fn requests_len(&self) -> (r: usize)
        ensures
            r == self.spec_requests().len(),
    {
        self.extraction_requests_stack.len()
    }

    /// The parameter map of `handle`, while it is live.
    pub(crate) fn params_map(&self, handle: Option<PoolHandle>) -> (r: Option<&VarMap>)
        ensures
            r is Some <==> (handle matches Some(h) && self.spec_live().contains(h)),
            r matches Some(m) ==> *m == self.spec_map_of(handle->0),
    {
        match handle {
            Some(h) => pool_get(&self.varmap_pool, h),
            None => None,
        }
    }

    /// The region and parameters handed to an extractor: `offset` and
    /// `length` as given, and the parameter map of `handle` while it is
    /// live.
    pub(crate) fn extraction_context(&self, offset: u64, length: Option<u64>, handle: Option<PoolHandle>)
        -> (r: ExtractionContext<'_>)
        ensures
            r.offset == offset,
            r.length == length,
            r.params is Some <==> (handle matches Some(h) && self.spec_live().contains(h)),
            r.params matches Some(m) ==> *m == self.spec_map_of(handle->0),
    {
        ExtractionContext { offset, length, params: self.params_map(handle) }
    }

    /// Releases the parameter map `handle` of a finished extraction pass,
    /// and clears it from request `index` when the pass ran for one.
    pub(crate) fn finish_request(&mut self, index: Option<usize>, handle: Option<PoolHandle>)
        requires
            old(self).wf(),
            index matches Some(i) ==> i < old(self).spec_requests().len()
                && old(self).spec_requests()[i as int].params_handle == handle,
            index is None ==> handle is None,
        ensures
            final(self).wf(),
            final(self).spec_objects() == old(self).spec_objects(),
            final(self).spec_arena() == old(self).spec_arena(),
            final(self).spec_store_findings() == old(self).spec_store_findings(),
            final(self).spec_current() == old(self).spec_current(),
            final(self).spec_findings() == old(self).spec_findings(),
            final(self).spec_global() == old(self).spec_global(),
            final(self).spec_local() == old(self).spec_local(),
            final(self).spec_live() == (match handle {
                Some(h) => old(self).spec_live().remove(h),
                None => old(self).spec_live(),
            }),
            final(self).spec_requests().len() == old(self).spec_requests().len(),
            index matches Some(i) ==> final(self).spec_requests()[i as int].params_handle is None,
            forall|j: int| 0 <= j < old(self).spec_requests().len() ==> {
                let a = #[trigger] old(self).spec_requests()[j];
                let b = final(self).spec_requests()[j];
                &&& b.content_type == a.content_type
                &&& b.start == a.start
                &&& b.len == a.len
                &&& (index != Some(j as usize) ==> b.params_handle == a.params_handle)
            },
    {
        if let Some(i) = index {
            if let Some(h) = handle {
                let ghost reqs = self.extraction_requests_stack@;
                pool_release(&mut self.varmap_pool, h);
                let mut req = self.extraction_requests_stack[i];
                req.params_handle = None;
                self.extraction_requests_stack.set(i, req);
                proof {
                    assert forall|r: int| 0 <= r < self.extraction_requests_stack@.len() && r != i implies
                        #[trigger] self.extraction_requests_stack@[r] == reqs[r] by {}
                }
            }
        }
    }
}

/// Region of a parent content that an extractor should look at, with
/// optional analyzer-supplied parameters.
pub struct ExtractionContext<'a> {
    /// First byte of the region within the parent content.
    pub offset: u64,
    /// Size of the region in bytes, when known.
    pub length: Option<u64>,
    /// Parameters the requesting analyzer attached, if any.
    pub params: Option<&'a VarMap>,
}

/// A request to extract a region of the current object as another content
/// type, returned by [`Context::request_extract`].
pub struct ExtractRequestBuilder<T: ContentType> {
    content_type: T,
    start: u64,
    len: Option<u64>,
    params: VarMap,
    has_params: bool,
}

impl<T: ContentType> ExtractRequestBuilder<T> {
    pub closed spec fn spec_content_type(&self) -> T {
        self.content_type
    }

    pub closed spec fn spec_start(&self) -> u64 {
        self.start
    }

    pub closed spec fn spec_len(&self) -> Option<u64> {
        self.len
    }

    /// At least one parameter was attached.
    pub closed spec fn spec_has_params(&self) -> bool {
        self.has_params
    }

    /// How many values the parameter map stores.
    pub closed spec fn spec_param_count(&self) -> nat {
        varmap_entries(self.params)
    }

    /// The parameter map.
    pub closed spec fn spec_params(&self) -> VarMap {
        self.params
    }

    /// A parameter is attached under `key`.
    pub open spec fn spec_has_param(&self, key: varmap::Key) -> bool {
        varmap_has(self.spec_params(), key)
    }

    /// Sets the byte offset within the parent where extraction begins
    /// (`0` when not called).
    pub fn at(self, start: u64) -> (r: Self)
        ensures
            r.spec_content_type() == self.spec_content_type(),
            r.spec_start() == start,
            r.spec_len() == self.spec_len(),
            r.spec_has_params() == self.spec_has_params(),
            r.spec_param_count() == self.spec_param_count(),
            r.spec_params() == self.spec_params(),
    {
        ExtractRequestBuilder { start, ..self }
    }

    /// Sets the length of the region in bytes; without it the extractor
    /// determines the extent itself.
    pub fn len(self, len: u64) -> (r: Self)
        ensures
            r.spec_content_type() == self.spec_content_type(),
            r.spec_start() == self.spec_start(),
            r.spec_len() == Some(len),
            r.spec_has_params() == self.spec_has_params(),
            r.spec_param_count() == self.spec_param_count(),
            r.spec_params() == self.spec_params(),
    {
        ExtractRequestBuilder { len: Some(len), ..self }
    }

    /// Adds one extractor-specific parameter to the request's parameter map
    /// and marks the request as carrying parameters. The map must hold
    /// fewer than 65535 values before the call.
    pub fn param<V: varmap::VarMapValue>(self, key: varmap::Key, value: V) -> (r: Self)
        requires
            self.spec_param_count() < 65535,
        ensures
            r.spec_has_param(key),
            forall|k: varmap::Key| self.spec_has_param(k) ==> #[trigger] r.spec_has_param(k),
            r.spec_param_count() == if self.spec_has_param(key) {
                self.spec_param_count()
            } else {
                self.spec_param_count() + 1
            },
            r.spec_content_type() == self.spec_content_type(),
            r.spec_start() == self.spec_start(),
            r.spec_len() == self.spec_len(),
            r.spec_has_params(),
    {
        let ExtractRequestBuilder { content_type, start, len, mut params, has_params } = self;
        varmap_set(&mut params, key, value);
        ExtractRequestBuilder { content_type, start, len, params, has_params: true }
    }

    /// Queues the request on `context`; its parameters, if any, move into a
    /// map of the context's pool.
    pub fn emit<M: FindingMetadata>(self, context: &mut Context<T, M>)
        requires
            old(context).wf(),
        ensures
            final(context).wf(),
            final(context).spec_objects() == old(context).spec_objects(),
            final(context).spec_findings() == old(context).spec_findings(),
            final(context).spec_current() == old(context).spec_current(),
            final(context).spec_requests().len() == old(context).spec_requests().len() + 1,
            final(context).spec_requests().drop_last() == old(context).spec_requests(),
            ({
                let r = final(context).spec_requests().last();
                &&& r.content_type == self.spec_content_type()
                &&& r.start == self.spec_start()
                &&& r.len == self.spec_len()
                &&& (r.params_handle is Some <==> self.spec_has_params())
                &&& (r.params_handle matches Some(h) ==> final(context).spec_map_of(h) == self.spec_params())
            }),
            plugin_step(*old(context), *final(context)),
    {
        let params_handle = if self.has_params {
            let h = pool_allocate(&mut context.varmap_pool);
            match pool_get_mut(&mut context.varmap_pool, h) {
                Some(slot) => {
                    *slot = self.params;
                },
                None => {},
            }
            Some(h)
        } else {
            None
        };
        let request = ExtractionRequest { content_type: self.content_type, start: self.start, len: self.len, params_handle };
        context.extraction_requests_stack.push(request);
        proof {
            let old_reqs = old(context).extraction_requests_stack@;
            assert(context.extraction_requests_stack@.take(old_reqs.len() as int) =~= old_reqs);
            assert(context.path_arena@.take(context.path_arena@.len() as int) =~= context.path_arena@);
        }
    }
}

/// Opaque handle to a content object inside a [`ScanResult`].
#[derive(Copy, Clone, Debug)]
pub struct ScanContentHandle {
    pub index: u32,
}

impl ScanContentHandle {
    /// Position of the object in scan order (the root is `0`).
    pub fn index(&self) -> (r: u32)
        ensures
            r == self.index,
    {
        self.index
    }
}

/// `std::str::from_utf8`: the bytes as a string slice, exactly when they
/// are valid UTF-8.
#[verifier::external_body]
pub(crate) fn str_from_utf8(bytes: &[u8]) -> (r: Option<&str>)
    ensures
        r is Some <==> valid_utf8(bytes@),
        r matches Some(s) ==> s.spec_bytes() == bytes@,
{
    std::str::from_utf8(bytes).ok()
}

/// The outcome of a scan: the global map, the tree of scanned objects and
/// their data, and the findings.
#[verifier::reject_recursive_types(T)]
#[verifier::reject_recursive_types(M)]
pub struct ScanResult<'a, T: ContentType, M: FindingMetadata> {
    pub(crate) context: &'a Context<T, M>,
}

impl<'a, T: ContentType, M: FindingMetadata> ScanResult<'a, T, M> {
    pub closed spec fn spec_context(&self) -> &'a Context<T, M> {
        self.context
    }

    /// The scanned objects.
    pub open spec fn objects(&self) -> Seq<Object> {
        self.spec_context().spec_objects()
    }

    pub open spec fn wf(&self) -> bool {
        self.spec_context().wf()
    }

    pub(crate) fn new(context: &'a Context<T, M>) -> (r: Self)
        ensures
            r.spec_context() == context,
    {
        Self { context }
    }

    /// The map populated by analyzers during the scan.
    pub fn global(&self) -> (r: &VarMap)
        ensures
            *r == self.spec_context().spec_global(),
    {
        &self.context.global
    }

    /// The number of content objects visited (the root included).
    pub fn objects_scanned(&self) -> (r: u32)
        requires
            self.wf(),
        ensures
            r == self.objects().len(),
    {
        self.context.objects_scanned()
    }

    /// The root object; `None` when nothing was scanned.
    pub fn root(&self) -> (r: Option<ScanContentHandle>)
        ensures
            r == if self.objects().len() == 0 { None } else { Some(ScanContentHandle { index: 0 }) },
    {
        if self.context.objects.len() == 0 {
            None
        } else {
            Some(ScanContentHandle { index: 0 })
        }
    }

    /// The link `link` of object `handle`, as a handle when it names an
    /// object.
    pub open spec fn spec_link(&self, handle: ScanContentHandle, link: u32) -> Option<ScanContentHandle> {
        if handle.index < self.objects().len() && link < self.objects().len() {
            Some(ScanContentHandle { index: link })
        } else {
            None
        }
    }

    /// The parent of `handle`; `None` for the root or an invalid handle.
    pub fn parent(&self, handle: ScanContentHandle) -> (r: Option<ScanContentHandle>)
        ensures
            r == (if handle.index < self.objects().len() {
                self.spec_link(handle, self.objects()[handle.index as int].parent_index)
            } else {
                None
            }),
    {
        if handle.index as usize >= self.context.objects.len() {
            return None;
        }
        let object = &self.context.objects[handle.index as usize];
        if object.parent_index as usize >= self.context.objects.len() {
            None
        } else {
            Some(ScanContentHandle { index: object.parent_index })
        }
    }

    /// The next sibling of `handle`: the next object extracted from the
    /// same parent.
    pub fn next_sibling(&self, handle: ScanContentHandle) -> (r: Option<ScanContentHandle>)
        ensures
            r == (if handle.index < self.objects().len() {
                self.spec_link(handle, self.objects()[handle.index as int].next_sibling_index)
            } else {
                None
            }),
    {
        if handle.index as usize >= self.context.objects.len() {
            return None;
        }
        let object = &self.context.objects[handle.index as usize];
        if object.next_sibling_index as usize >= self.context.objects.len() {
            None
        } else {
            Some(ScanContentHandle { index: object.next_sibling_index })
        }
    }

    /// The first child of `handle`.
    pub fn child(&self, handle: ScanContentHandle) -> (r: Option<ScanContentHandle>)
        ensures
            r == (if handle.index < self.objects().len() {
                self.spec_link(handle, self.objects()[handle.index as int].first_child_index)
            } else {
                None
            }),
    {
        if handle.index as usize >= self.context.objects.len() {
            return None;
        }
        let object = &self.context.objects[handle.index as usize];
        if object.first_child_index as usize >= self.context.objects.len() {
            None
        } else {
            Some(ScanContentHandle { index: object.first_child_index })
        }
    }

    /// The map of `handle` populated by analyzers; `None` when the object
    /// never used one or the handle is invalid.
    pub fn local(&self, handle: ScanContentHandle) -> (r: Option<&VarMap>)
        requires
            self.wf(),
        ensures
            r is Some <==> (handle.index < self.objects().len()
                && self.objects()[handle.index as int].varmap_handle is Some),
            r matches Some(m) ==> *m == self.spec_context().spec_map_of(self.objects()[handle.index as int].varmap_handle->0),
    {
        if handle.index as usize >= self.context.objects.len() {
            return None;
        }
        let object = &self.context.objects[handle.index as usize];
        match object.varmap_handle {
            Some(h) => pool_get(&self.context.varmap_pool, h),
            None => None,
        }
    }

    /// The path stored for `handle`, as it was printed when the object was
    /// scanned.
    pub fn path(&self, handle: ScanContentHandle) -> (r: Option<&str>)
        requires
            self.wf(),
        ensures
            r matches Some(s) ==> handle.index < self.objects().len()
                && arena_slice(self.spec_context().spec_arena(), self.objects()[handle.index as int].path) == Some(s.spec_bytes()),
            handle.index < self.objects().len() ==> ({
                let b = arena_slice(self.spec_context().spec_arena(), self.objects()[handle.index as int].path);
                r is Some <==> (b is Some && valid_utf8(b->0))
            }),
    {
        if handle.index as usize >= self.context.objects.len() {
            return None;
        }
        let object = &self.context.objects[handle.index as usize];
        match self.context.path_arena.get(object.path) {
            Some(bytes) => str_from_utf8(bytes),
            None => None,
        }
    }

    /// The identified content type of `handle`; `None` when it was not
    /// identified or the handle is invalid.
    pub fn content_type(&self, handle: ScanContentHandle) -> (r: Option<T>)
        ensures
            handle.index >= self.objects().len() ==> r is None,
            r matches Some(t) ==> handle.index < self.objects().len()
                && t.id() == self.objects()[handle.index as int].type_id,
            handle.index < self.objects().len() ==> (r is None <==>
                forall|t: T| #[trigger] t.id() != self.objects()[handle.index as int].type_id),
    {
        if handle.index as usize >= self.context.objects.len() {
            return None;
        }
        let object = &self.context.objects[handle.index as usize];
        T::from_u16(object.type_id)
    }

    /// The number of stored findings.
    pub fn findings_count(&self) -> (r: usize)
        ensures
            r == self.spec_context().spec_findings().len(),
    {
        self.context.findings.len()
    }

    /// The finding at `index`, in the order findings were recorded.
    pub fn finding(&self, index: usize) -> (r: Option<Finding<'a, T, M>>)
        ensures
            r is Some <==> index < self.spec_context().spec_findings().len(),
            r matches Some(f) ==> f.spec_finding() == self.spec_context().spec_findings()[index as int]
                && f.spec_ctx() == *self.spec_context(),
    {
        if index < self.context.findings.len() {
            Some(Finding { inner: &self.context.findings[index], ctx: self.context })
        } else {
            None
        }
    }

    /// The findings, in the order they were recorded.
    pub fn findings(&self) -> (r: FindigsIterator<'a, T, M>)
        ensures
            r.position() == 0,
            r.spec_all() == self.spec_context().spec_findings(),
    {
        FindigsIterator { id: 0, ctx: self.context }
    }
}

/// One finding of a scan.
#[verifier::reject_recursive_types(T)]
#[verifier::reject_recursive_types(M)]
pub struct Finding<'a, T: ContentType, M: FindingMetadata> {
    inner: &'a InternalFinding<M>,
    ctx: &'a Context<T, M>,
}

impl<'a, T: ContentType, M: FindingMetadata> Finding<'a, T, M> {
    /// The stored finding.
    pub closed spec fn spec_finding(&self) -> InternalFinding<M> {
        *self.inner
    }

    /// The context of the scan it belongs to.
    pub closed spec fn spec_ctx(&self) -> Context<T, M> {
        *self.ctx
    }

    /// The object the finding was recorded on.
    pub fn object(&self) -> (r: ScanContentHandle)
        ensures
            r.index == self.spec_finding().objindex,
    {
        ScanContentHandle { index: self.inner.objindex }
    }

    /// The finding's text.
    pub fn text(&self) -> (r: Option<&str>)
        requires
            self.spec_ctx().wf(),
        ensures
            r is Some <==> (arena_slice(self.spec_ctx().spec_arena(), self.spec_finding().finding) matches Some(b) && valid_utf8(b)),
            r matches Some(s) ==> arena_slice(self.spec_ctx().spec_arena(), self.spec_finding().finding) == Some(s.spec_bytes()),
    {
        match self.ctx.path_arena.get(self.inner.finding) {
            Some(bytes) => str_from_utf8(bytes),
            None => None,
        }
    }

    /// The finding's source, when one was given.
    pub fn source(&self) -> (r: Option<&str>)
        requires
            self.spec_ctx().wf(),
        ensures
            r is Some <==> (arena_slice(self.spec_ctx().spec_arena(), self.spec_finding().source) matches Some(b) && valid_utf8(b)),
            r matches Some(s) ==> arena_slice(self.spec_ctx().spec_arena(), self.spec_finding().source) == Some(s.spec_bytes()),
    {
        match self.ctx.path_arena.get(self.inner.source) {
            Some(bytes) => str_from_utf8(bytes),
            None => None,
        }
    }

    /// The metadata attached to the finding.
    pub fn metadata(&self) -> (r: Option<M>)
        ensures
            r == self.spec_finding().metadata,
    {
        self.inner.metadata
    }
}

/// Walks the findings of a scan in the order they were recorded.
#[verifier::reject_recursive_types(T)]
#[verifier::reject_recursive_types(M)]
pub struct FindigsIterator<'a, T: ContentType, M: FindingMetadata> {
    id: usize,
    ctx: &'a Context<T, M>,
}

impl<'a, T: ContentType, M: FindingMetadata> FindigsIterator<'a, T, M> {
    /// How many findings were handed out so far.
    pub closed spec fn position(&self) -> int {
        self.id as int
    }

    /// The findings being walked.
    pub closed spec fn spec_all(&self) -> Seq<InternalFinding<M>> {
        self.ctx.spec_findings()
    }

    /// The next finding, or `None` after the last.
    pub fn next(&mut self) -> (r: Option<Finding<'a, T, M>>)
        ensures
            r is Some <==> old(self).position() < old(self).spec_all().len(),
            r matches Some(f) ==> f.spec_finding() == old(self).spec_all()[old(self).position()],
            final(self).spec_all() == old(self).spec_all(),
            final(self).position() == if r is Some { old(self).position() + 1 } else { old(self).position() },
    {
        if self.id >= self.ctx.findings.len() {
            return None;
        }
        let f = Finding { inner: &self.ctx.findings[self.id], ctx: self.ctx };
        self.id = self.id + 1;
        Some(f)
    }
}
} // verus!
