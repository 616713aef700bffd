use vstd::prelude::*;
use crate::arena::{arena_slice, lemma_slice_kept, ArenaIndex};
use vstd::utf8::encode_utf8;
use crate::content::{Content, ContentType};
use crate::context::{
    depth, lemma_append_object, lemma_depth_prefix, lemma_plugin_step_trans, link_child, fresh_object, plugin_step,
    tree_wf, Context, ExtractionContext, ExtractionRequest, Object, ScanResult, INVALID_INDEX,
};
use crate::extractor_list::ExtractorList;
use crate::filter::{decide, lower_name, no_custom_tests, Filter};
use crate::utils::extension_of;
use crate::identifier_set::{
    candidate_types, first_accepted, head_view, registered, lemma_first_accepted_at, lemma_first_accepted_none,
    IdentifierSet,
};
use crate::interfaces::{ContentAnalyzer, ContentExtractor, FindingMetadata, NextAction, StopCondition};
use crate::plugin_list::{expected_generic, AnalyzerList};
use crate::plugin_runs::{
    index_range, lemma_appended_run, lemma_run_completes, lemma_runs_concat, lemma_second_group_runs, planned, runs_in_order,
};
use crate::utils::{file_name_of, get_file_name};
use crate::arena::bytes_to_vec;
use crate::varmaps::{live_handles, pool_get, pool_release, varmap_entries};
use varmap::PoolHandle;

verus! {

broadcast use crate::plugin_runs::lemma_runs_stopped;

/// Every object lies at most `max` levels deep.
pub open spec fn depth_ok(objs: Seq<Object>, max: int) -> bool {
    forall|i: int| 0 <= i < objs.len() ==> #[trigger] depth(objs, i) <= max
}

/// `b` extends the tree of `a`: the objects of `a` keep their parent, path
/// and type, and strings are only appended.
pub open spec fn grows<T: ContentType, M: FindingMetadata>(a: Context<T, M>, b: Context<T, M>) -> bool {
    &&& a.spec_objects().len() <= b.spec_objects().len()
    &&& forall|i: int| 0 <= i < a.spec_objects().len() ==> {
        let x = #[trigger] a.spec_objects()[i];
        let y = b.spec_objects()[i];
        &&& y.parent_index == x.parent_index
        &&& y.path == x.path
        &&& y.type_id == x.type_id
    }
    &&& a.spec_arena().is_prefix_of(b.spec_arena())
    &&& b.spec_store_findings() == a.spec_store_findings()
}

/// Every object that `b` adds to the tree of `a` hangs under `parent`, or
/// under an object added before it: what `b` adds is a forest of children
/// of `parent`.
pub open spec fn adds_under<T: ContentType, M: FindingMetadata>(a: Context<T, M>, b: Context<T, M>, parent: int) -> bool {
    forall|i: int| a.spec_objects().len() <= i < b.spec_objects().len() ==> {
        let p = (#[trigger] b.spec_objects()[i]).parent_index as int;
        p == parent || a.spec_objects().len() <= p < i
    }
}

/// What `c` adds under `q` after `b`, which added under `parent`, extends
/// the forest under `parent` when `q` is `parent` or an object `b` added.
proof fn lemma_adds_trans<T: ContentType, M: FindingMetadata>(
    a: Context<T, M>,
    b: Context<T, M>,
    c: Context<T, M>,
    parent: int,
    q: int,
)
    requires
        grows(a, b),
        grows(b, c),
        adds_under(a, b, parent),
        adds_under(b, c, q),
        q == parent || a.spec_objects().len() <= q < b.spec_objects().len(),
    ensures
        adds_under(a, c, parent),
{
    assert forall|i: int| a.spec_objects().len() <= i < c.spec_objects().len() implies {
        let p = (#[trigger] c.spec_objects()[i]).parent_index as int;
        p == parent || a.spec_objects().len() <= p < i
    } by {
        if i < b.spec_objects().len() {
            assert(c.spec_objects()[i].parent_index == b.spec_objects()[i].parent_index);
        }
    }
}

/// A step that adds no object adds under anything.
proof fn lemma_adds_none<T: ContentType, M: FindingMetadata>(a: Context<T, M>, b: Context<T, M>, parent: int)
    requires
        b.spec_objects().len() <= a.spec_objects().len(),
    ensures
        adds_under(a, b, parent),
{
}

/// The objects at positions `lo..hi` of `objs` form a forest under
/// `parent`: each hangs under `parent` or under an earlier one of them.
pub open spec fn forest_in(objs: Seq<Object>, lo: int, hi: int, parent: int) -> bool {
    forall|i: int| lo <= i < hi ==> {
        let p = (#[trigger] objs[i]).parent_index as int;
        p == parent || lo <= p < i
    }
}

/// Growing the tree keeps every forest of objects it already held.
proof fn lemma_forest_kept<T: ContentType, M: FindingMetadata>(a: Context<T, M>, b: Context<T, M>, lo: int, hi: int, parent: int)
    requires
        grows(a, b),
        0 <= lo,
        hi <= a.spec_objects().len(),
        forest_in(a.spec_objects(), lo, hi, parent),
    ensures
        forest_in(b.spec_objects(), lo, hi, parent),
{
    assert forall|i: int| lo <= i < hi implies {
        let p = (#[trigger] b.spec_objects()[i]).parent_index as int;
        p == parent || lo <= p < i
    } by {
        assert(b.spec_objects()[i].parent_index == a.spec_objects()[i].parent_index);
    }
}

/// One more pass, which added under `parent` only, closes one more span of
/// the marks.
#[verifier::rlimit(40)]
proof fn lemma_marks_step<T: ContentType, M: FindingMetadata>(a: Context<T, M>, b: Context<T, M>, marks: Seq<int>, parent: int)
    requires
        grows(a, b),
        adds_under(a, b, parent),
        marks.len() >= 1,
        0 <= marks[0],
        marks.last() == a.spec_objects().len(),
        forall|k: int| 0 <= k < marks.len() - 1 ==> #[trigger] marks[k] <= marks[k + 1]
            && forest_in(a.spec_objects(), marks[k], marks[k + 1], parent),
    ensures
        ({
            let m = marks.push(b.spec_objects().len() as int);
            &&& m.last() == b.spec_objects().len()
            &&& m[0] == marks[0]
            &&& forall|k: int| 0 <= k < m.len() - 1 ==> #[trigger] m[k] <= m[k + 1]
                && forest_in(b.spec_objects(), m[k], m[k + 1], parent)
        }),
{
    let m = marks.push(b.spec_objects().len() as int);
    assert(forest_in(b.spec_objects(), a.spec_objects().len() as int, b.spec_objects().len() as int, parent));
    assert forall|k: int| 0 <= k < m.len() - 1 implies #[trigger] m[k] <= m[k + 1]
        && forest_in(b.spec_objects(), m[k], m[k + 1], parent) by {
        if k < marks.len() - 1 {
            assert(m[k] == marks[k] && m[k + 1] == marks[k + 1]);
            lemma_marks_bounded(marks, k);
            lemma_marks_bounded(marks, k + 1);
            lemma_forest_kept(a, b, marks[k], marks[k + 1], parent);
        } else {
            assert(m[k] == a.spec_objects().len());
            assert(m[k + 1] == b.spec_objects().len());
        }
    }
}

/// Nondecreasing marks that start at zero or more stay between their first
/// and their last.
proof fn lemma_marks_bounded(marks: Seq<int>, k: int)
    requires
        marks.len() >= 1,
        0 <= marks[0],
        0 <= k < marks.len(),
        forall|j: int| 0 <= j < marks.len() - 1 ==> #[trigger] marks[j] <= marks[j + 1],
    ensures
        0 <= marks[k] <= marks.last(),
    decreases marks.len() - k,
{
    if k < marks.len() - 1 {
        lemma_marks_bounded(marks, k + 1);
    }
    lemma_marks_low(marks, k);
}

proof fn lemma_marks_low(marks: Seq<int>, k: int)
    requires
        marks.len() >= 1,
        0 <= marks[0],
        0 <= k < marks.len(),
        forall|j: int| 0 <= j < marks.len() - 1 ==> #[trigger] marks[j] <= marks[j + 1],
    ensures
        0 <= marks[k],
    decreases k,
{
    if k > 0 {
        lemma_marks_low(marks, k - 1);
    }
}

proof fn lemma_grows_trans<T: ContentType, M: FindingMetadata>(a: Context<T, M>, b: Context<T, M>, c: Context<T, M>)
    requires
        grows(a, b),
        grows(b, c),
    ensures
        grows(a, c),
{
    assert forall|i: int| 0 <= i < a.spec_objects().len() implies {
        let x = #[trigger] a.spec_objects()[i];
        let y = c.spec_objects()[i];
        &&& y.parent_index == x.parent_index
        &&& y.path == x.path
        &&& y.type_id == x.type_id
    } by {
        let m = b.spec_objects()[i];
        assert(m == b.spec_objects()[i]);
    }
}

proof fn lemma_grows_refl<T: ContentType, M: FindingMetadata>(a: Context<T, M>)
    ensures
        grows(a, a),
{
    assert(a.spec_arena().take(a.spec_arena().len() as int) =~= a.spec_arena());
}

proof fn lemma_step_grows<T: ContentType, M: FindingMetadata>(a: Context<T, M>, b: Context<T, M>)
    requires
        plugin_step(a, b),
    ensures
        grows(a, b),
{
    assert forall|i: int| 0 <= i < a.spec_objects().len() implies {
        let x = #[trigger] a.spec_objects()[i];
        let y = b.spec_objects()[i];
        &&& y.parent_index == x.parent_index
        &&& y.path == x.path
        &&& y.type_id == x.type_id
    } by {
        let x = a.spec_objects()[i];
        assert(x == a.spec_objects()[i]);
    }
}

/// Depths of the objects `a` had are the same in `b`.
proof fn lemma_grows_depth<T: ContentType, M: FindingMetadata>(a: Context<T, M>, b: Context<T, M>, i: int)
    requires
        grows(a, b),
        0 <= i < a.spec_objects().len(),
    ensures
        depth(b.spec_objects(), i) == depth(a.spec_objects(), i),
{
    assert forall|k: int| 0 <= k <= i implies k < b.spec_objects().len() && k < a.spec_objects().len()
        && (#[trigger] b.spec_objects()[k]).parent_index == a.spec_objects()[k].parent_index by {
        let x = a.spec_objects()[k];
        assert(x == a.spec_objects()[k]);
    }
    lemma_depth_prefix(b.spec_objects(), a.spec_objects(), i);
}

/// What an extractor pass did with one entry its session announced, or
/// how the session ended.
pub enum PassStep {
    /// The filter rejected the entry.
    Filtered,
    /// The session could not materialise the entry.
    NotExtracted,
    /// The entry was extracted and scanned one level deeper, with this
    /// outcome.
    Scanned(NextAction),
    /// The session announced no further entry.
    End,
}

/// After this step the pass asks its session for the next entry.
pub open spec fn pass_goes_on(step: PassStep) -> bool {
    step != PassStep::End && step != PassStep::Scanned(NextAction::Exit)
}

/// The steps of a pass that opened a session: it went on after every step
/// but the last, and it stopped only when the session ended, when a
/// child's scan exited, or after `u64::MAX` entries; `r` is `Exit`
/// exactly when a child's scan exited.
pub open spec fn pass_ran(steps: Seq<PassStep>, r: NextAction) -> bool {
    &&& steps.len() > 0
    &&& forall|k: int| 0 <= k < steps.len() - 1 ==> pass_goes_on(#[trigger] steps[k])
    &&& steps.last() == PassStep::End || steps.last() == PassStep::Scanned(NextAction::Exit)
        || steps.len() == u64::MAX
    &&& (r == NextAction::Exit <==> steps.last() == PassStep::Scanned(NextAction::Exit))
}

/// A pass that answered `Continue` was cut short by no child: no child's
/// scan exited, and the session ran out of entries (or `u64::MAX` entries
/// were handled).
pub proof fn lemma_pass_read_to_end(steps: Seq<PassStep>)
    requires
        pass_ran(steps, NextAction::Continue),
    ensures
        forall|k: int| 0 <= k < steps.len() ==> #[trigger] steps[k] != PassStep::Scanned(NextAction::Exit),
        steps.last() == PassStep::End || steps.len() == u64::MAX,
{
    assert forall|k: int| 0 <= k < steps.len() implies #[trigger] steps[k] != PassStep::Scanned(NextAction::Exit) by {
        if k < steps.len() - 1 {
            assert(pass_goes_on(steps[k]));
        }
    }
}

/// The region and parameters an extractor pass works on.
pub struct ExtractionRequestMetadata {
    pub start: u64,
    pub len: Option<u64>,
    pub params_handle: Option<PoolHandle>,
}

impl ExtractionRequestMetadata {
    /// A pass over the whole of a content of `size` bytes, as the
    /// extractors of the content's own type get it: from offset `0`, of
    /// known length, without parameters.
    pub fn whole(size: u64) -> (r: Self)
        ensures
            r.start == 0,
            r.len == Some(size),
            r.params_handle is None,
    {
        ExtractionRequestMetadata { start: 0, len: Some(size), params_handle: None }
    }

    /// A pass over the region that `req` names, with its parameters.
    pub fn of_request<T: ContentType>(req: &ExtractionRequest<T>) -> (r: Self)
        ensures
            r.start == req.start,
            r.len == req.len,
            r.params_handle == req.params_handle,
    {
        ExtractionRequestMetadata { start: req.start, len: req.len, params_handle: req.params_handle }
    }
}

/// Whether an entry a session announces is extracted: when it is exempt
/// from filtering, when there is no filter (`verdict` is `None`), or when
/// the filter accepts it.
pub open spec fn entry_extracted(skip_from_filtering: bool, verdict: Option<bool>) -> bool {
    skip_from_filtering || verdict != Some(false)
}

/// Decides whether an announced entry is extracted, from its exemption and
/// the filter's verdict on it (`None` when no filter was asked).
pub fn entry_accepted(skip_from_filtering: bool, verdict: Option<bool>) -> (r: bool)
    ensures
        r == entry_extracted(skip_from_filtering, verdict),
{
    skip_from_filtering || !matches!(verdict, Some(false))
}

/// Whether the scan of an extracted child ends its parent's extraction
/// pass: only an `Exit` does; a child that was skipped, or that continued,
/// lets the session announce its next entry.
pub fn child_ends_pass(result: NextAction) -> (r: bool)
    ensures
        r == (result == NextAction::Exit),
{
    match result {
        NextAction::Exit => true,
        _ => false,
    }
}

/// The engine that drives a scan: identifiers, analyzers, extractors, an
/// optional filter, and a maximum recursion depth.
#[verifier::reject_recursive_types(T)]
#[verifier::reject_recursive_types(M)]
pub struct Scanner<T: ContentType, M: FindingMetadata> {
    filter: Option<Filter>,
    identifiers: IdentifierSet<T>,
    analyzers: AnalyzerList<Box<dyn ContentAnalyzer<T, M>>>,
    extractors: ExtractorList<Box<dyn ContentExtractor<T>>, T>,
    context: Context<T, M>,
    max_depth: u32,
    stop_condition: Option<Box<dyn StopCondition>>,
    analyzer_calls: Ghost<Seq<(int, NextAction)>>,
}

impl<T: ContentType, M: FindingMetadata> Scanner<T, M> {
    /// Every analyzer call made so far: the analyzer's position and its
    /// answer, in call order.
    pub closed spec fn spec_analyzer_calls(&self) -> Seq<(int, NextAction)> {
        self.analyzer_calls@
    }

    /// The positions of the analyzers registered for `content_type`.
    pub closed spec fn typed_analyzers(&self, content_type: Option<T>) -> Seq<int> {
        match content_type {
            Some(ty) => planned(self.analyzers.spec_range(ty.id() as int), self.analyzers.spec_plugins().len() as int),
            None => Seq::empty(),
        }
    }

    /// The positions of the generic analyzers, which run for every type.
    pub closed spec fn generic_analyzers(&self) -> Seq<int> {
        planned(expected_generic(self.analyzers.spec_plugins()), self.analyzers.spec_plugins().len() as int)
    }

    /// The analyzers of an object run as one queue, those of its type
    /// first, then the generic ones: when the typed analyzers all
    /// continued, every generic analyzer ran after them unless an earlier
    /// generic one stopped the run, and when the run ended in `Continue`
    /// every typed and every generic analyzer ran, in that order.
    pub proof fn lemma_generic_after_typed(&self, content_type: Option<T>, calls: Seq<(int, NextAction)>, r: NextAction)
        requires
            runs_in_order(self.typed_analyzers(content_type) + self.generic_analyzers(), calls, r),
            forall|k: int| 0 <= k < self.typed_analyzers(content_type).len() && k < calls.len()
                ==> (#[trigger] calls[k]).1 == NextAction::Continue,
        ensures
            ({
                let typed = self.typed_analyzers(content_type);
                let generic = self.generic_analyzers();
                &&& calls.len() >= typed.len()
                &&& forall|j: int| 0 <= j < generic.len()
                    && (forall|k: int| typed.len() <= k < typed.len() + j ==> (#[trigger] calls[k]).1 == NextAction::Continue)
                    ==> calls.len() > typed.len() + j && #[trigger] calls[typed.len() + j].0 == generic[j]
                &&& r == NextAction::Continue ==> calls.len() == typed.len() + generic.len()
                    && forall|j: int| 0 <= j < generic.len() ==> #[trigger] calls[typed.len() + j] == (generic[j], NextAction::Continue)
            }),
    {
        let typed = self.typed_analyzers(content_type);
        let generic = self.generic_analyzers();
        lemma_second_group_runs(typed, generic, calls, r);
        if r == NextAction::Continue {
            lemma_run_completes(typed + generic, calls);
            assert forall|j: int| 0 <= j < generic.len() implies #[trigger] calls[typed.len() + j] == (generic[j], NextAction::Continue) by {
                assert((typed + generic)[typed.len() + j] == generic[j]);
            }
        }
    }

    /// The calls at positions `a..b` of the log are one run of the
    /// analyzers that `setup` has for `ty` (those of the type, then the
    /// generic ones), made after every call `setup` had logged, on object
    /// `n`, whose type `ty` is.
    pub closed spec fn analyzers_ran_on(&self, setup: &Self, n: int, ty: Option<T>, a: int, b: int, ra: NextAction) -> bool {
        &&& setup.analyzer_calls@.len() <= a <= b <= self.analyzer_calls@.len()
        &&& runs_in_order(setup.typed_analyzers(ty) + setup.generic_analyzers(), self.analyzer_calls@.subrange(a, b), ra)
        &&& 0 <= n < self.context.spec_objects().len()
        &&& match ty {
            Some(t) => self.context.spec_objects()[n].type_id == t.id(),
            None => self.context.spec_objects()[n].type_id == u16::MAX,
        }
    }

    /// The analyzers are those of `other`, at the same positions.
    closed spec fn same_analyzers(&self, other: &Self) -> bool {
        &&& self.analyzers.spec_plugins().len() == other.analyzers.spec_plugins().len()
        &&& forall|i: int| 0 <= i < self.analyzers.spec_plugins().len()
            ==> (#[trigger] self.analyzers.spec_plugins()[i]).0 == other.analyzers.spec_plugins()[i].0
        &&& self.analyzers.spec_max_count() == other.analyzers.spec_max_count()
    }

    /// The maximum depth of a scanned object (the root is at depth 1).
    pub closed spec fn spec_max_depth(&self) -> int {
        self.max_depth as int
    }

    /// A filter is configured.
    pub closed spec fn spec_has_filter(&self) -> bool {
        self.filter is Some
    }

    /// A stop condition is attached.
    pub closed spec fn spec_has_stop(&self) -> bool {
        self.stop_condition is Some
    }

    /// The filter, when one is configured.
    pub closed spec fn spec_filter(&self) -> Option<Filter> {
        self.filter
    }

    /// The context of the last scan.
    pub closed spec fn spec_context(&self) -> Context<T, M> {
        self.context
    }

    pub closed spec fn wf(&self) -> bool {
        &&& self.context.wf()
        &&& (self.filter matches Some(f) ==> f.wf())
        &&& self.identifiers.wf()
        &&& self.analyzers.wf()
        &&& self.extractors.wf()
        &&& 1 <= self.max_depth <= u32::MAX - 2
        &&& depth_ok(self.context.spec_objects(), self.max_depth as int)
    }

    /// Everything but the context is as in `other`.
    pub closed spec fn same_setup(&self, other: &Self) -> bool {
        &&& self.max_depth == other.max_depth
        &&& (self.stop_condition is Some) == (other.stop_condition is Some)
        &&& (self.filter is Some) == (other.filter is Some)
        &&& self.extractors.spec_plugins().len() == other.extractors.spec_plugins().len()
        &&& self.same_analyzers(other)
        &&& self.analyzer_calls@.len() >= other.analyzer_calls@.len()
        &&& forall|k: int| 0 <= k < other.analyzer_calls@.len() ==> #[trigger] self.analyzer_calls@[k] == other.analyzer_calls@[k]
    }
}

proof fn lemma_step_depth<T: ContentType, M: FindingMetadata>(a: Context<T, M>, b: Context<T, M>, max: int)
    requires
        plugin_step(a, b),
        depth_ok(a.spec_objects(), max),
    ensures
        grows(a, b),
        depth_ok(b.spec_objects(), max),
{
    lemma_step_grows(a, b);
    assert forall|i: int| 0 <= i < b.spec_objects().len() implies #[trigger] depth(b.spec_objects(), i) <= max by {
        lemma_grows_depth(a, b, i);
    }
}

proof fn lemma_plugin_step_refl<T: ContentType, M: FindingMetadata>(a: Context<T, M>)
    requires
        a.wf(),
    ensures
        plugin_step(a, a),
{
    assert(a.spec_arena().take(a.spec_arena().len() as int) =~= a.spec_arena());
    assert(a.spec_requests().take(a.spec_requests().len() as int) =~= a.spec_requests());
}

impl<T: ContentType, M: FindingMetadata> Scanner<T, M> {
    /// Whether the identifier registered for `content_type` accepts
    /// `content`; `false` when none is registered.
    fn validate_content_type(&self, content: &mut Box<dyn Content<T>>, content_type: T) -> (r: bool)
        requires
            self.wf(),
        ensures
            r ==> registered(self.identifiers.spec_ids(), content_type.id()),
    {
        match self.identifiers.get(content_type) {
            Some(identifier) => identifier.validate(content),
            None => false,
        }
    }

    /// The type the identifiers give `content`: the first of the
    /// [`candidates`](IdentifierSet::candidates) for its file name and its
    /// first 16 bytes (read only when magic patterns are registered) whose
    /// identifier accepts it. Which candidates accept is up to the
    /// identifiers; every candidate is tried before `None` is returned.
    fn retrieve_content_type(&mut self, content: &mut Box<dyn Content<T>>) -> (r: Option<T>)
        requires
            old(self).wf(),
        ensures
            final(self).wf(),
            final(self).context == old(self).context,
            final(self).same_setup(old(self)),
            exists|head: Option<Seq<u8>>, verdicts: Seq<bool>| {
                &&& (head matches Some(h) ==> h.len() <= 16)
                &&& verdicts.len() <= candidate_types(old(self).identifiers.spec_ids(),
                    file_name_of(old(content).spec_path_of().spec_bytes()), head).len()
                &&& (r is None ==> verdicts.len() == candidate_types(old(self).identifiers.spec_ids(),
                    file_name_of(old(content).spec_path_of().spec_bytes()), head).len())
                &&& r == #[trigger] first_accepted(candidate_types(old(self).identifiers.spec_ids(),
                    file_name_of(old(content).spec_path_of().spec_bytes()), head), verdicts)
            },
            r matches Some(t) ==> registered(old(self).identifiers.spec_ids(), t.id()),
    {
        let ghost ids = self.identifiers.spec_ids();
        let ghost name = file_name_of(old(content).spec_path_of().spec_bytes());
        let file_name = bytes_to_vec(get_file_name(content.path().as_bytes()));
        assert(file_name@ == name);
        let mut head: Vec<u8> = Vec::new();
        let has_head = if self.identifiers.has_magic() {
            match content.read(0, 16) {
                Some(buf) => {
                    let mut k: usize = 0;
                    let n: usize = if buf.len() < 16 { buf.len() } else { 16 };
                    while k < n
                        invariant
                            k <= n,
                            n <= buf@.len(),
                            n <= 16,
                            head@ == buf@.take(k as int),
                        decreases n - k,
                    {
                        head.push(buf[k]);
                        assert(buf@.take(k + 1) == buf@.take(k as int).push(buf@[k as int]));
                        k = k + 1;
                    }
                    true
                },
                None => false,
            }
        } else {
            false
        };
        let h: Option<&[u8]> = if has_head { Some(head.as_slice()) } else { None };
        let ghost hd = head_view(h);
        let cands = self.identifiers.candidates(file_name.as_slice(), h);
        let ghost cs = cands@;
        assert(hd matches Some(x) ==> x.len() <= 16);
        assert(cs == candidate_types(ids, name, hd));
        let mut i: usize = 0;
        while i < cands.len()
            invariant
                i <= cands@.len(),
                self.wf(),
                self.context == old(self).context,
                self.same_setup(old(self)),
                ids == old(self).identifiers.spec_ids(),
                ids == self.identifiers.spec_ids(),
                cs == cands@,
                cs == candidate_types(ids, name, hd),
                name == file_name_of(old(content).spec_path_of().spec_bytes()),
                hd matches Some(x) ==> x.len() <= 16,
            decreases cands@.len() - i,
        {
            let ty = cands[i];
            if self.validate_content_type(content, ty) {
                proof {
                    lemma_first_accepted_at(cs, i as int);
                    assert(Some(ty) == first_accepted(candidate_types(old(self).identifiers.spec_ids(), file_name_of(old(content).spec_path_of().spec_bytes()), hd), Seq::new(i as nat, |j: int| false).push(true)));
                }
                return Some(ty);
            }
            i = i + 1;
        }
        proof {
            lemma_first_accepted_none(cs);
            assert(None::<T> == first_accepted(candidate_types(old(self).identifiers.spec_ids(), file_name_of(old(content).spec_path_of().spec_bytes()), hd), Seq::new(cs.len(), |j: int| false)));
        }
        None
    }

    /// Identifies `content`, records it as a new object under
    /// `parent_index` (the root when invalid), links it as its parent's last
    /// child, and makes it the current object.
    fn create_object(&mut self, content: &mut Box<dyn Content<T>>, parent_index: u32) -> (r: (Option<T>, u32))
        requires
            old(self).wf(),
            old(self).context.spec_objects().len() + 1 < INVALID_INDEX,
            (parent_index == INVALID_INDEX && old(self).context.spec_objects().len() == 0)
                || parent_index < old(self).context.spec_objects().len(),
            parent_index != INVALID_INDEX ==> depth(old(self).context.spec_objects(), parent_index as int) + 1
                <= old(self).spec_max_depth(),
            old(self).context.spec_local() is None,
            old(self).context.spec_current() is None,
        ensures
            final(self).wf(),
            final(self).same_setup(old(self)),
            grows(old(self).context, final(self).context),
            r.1 == old(self).context.spec_objects().len(),
            final(self).context.spec_objects().len() == old(self).context.spec_objects().len() + 1,
            final(self).context.spec_objects()[r.1 as int].parent_index == parent_index,
            final(self).context.spec_current() == Some(r.1),
            final(self).context.spec_local() is None,
            final(self).context.spec_requests() == old(self).context.spec_requests(),
            depth(final(self).context.spec_objects(), r.1 as int) == if parent_index == INVALID_INDEX {
                1
            } else {
                depth(old(self).context.spec_objects(), parent_index as int) + 1
            },
            match r.0 {
                Some(t) => final(self).context.spec_objects()[r.1 as int].type_id == t.id(),
                None => final(self).context.spec_objects()[r.1 as int].type_id == u16::MAX,
            },
            old(content).spec_declared_type() is Some ==> r.0 == old(content).spec_declared_type(),
            old(content).spec_declared_type() is None ==> exists|head: Option<Seq<u8>>, verdicts: Seq<bool>| {
                &&& (head matches Some(h) ==> h.len() <= 16)
                &&& verdicts.len() <= candidate_types(old(self).identifiers.spec_ids(),
                    file_name_of(old(content).spec_path_of().spec_bytes()), head).len()
                &&& (r.0 is None ==> verdicts.len() == candidate_types(old(self).identifiers.spec_ids(),
                    file_name_of(old(content).spec_path_of().spec_bytes()), head).len())
                &&& r.0 == #[trigger] first_accepted(candidate_types(old(self).identifiers.spec_ids(),
                    file_name_of(old(content).spec_path_of().spec_bytes()), head), verdicts)
            },
            old(self).context.spec_arena().len() + encode_utf8(old(content).spec_path_of().printable()).len() <= 0xFFFF_FFFF
                ==> arena_slice(final(self).context.spec_arena(), final(self).context.spec_objects()[r.1 as int].path)
                    == Some(encode_utf8(old(content).spec_path_of().printable())),
    {
        let path_bytes = bytes_to_vec(content.path().as_printable_string().as_bytes());
        let ty = match content.content_type() {
            Some(declared) => Some(declared),
            None => self.retrieve_content_type(content),
        };
        let type_id: u16 = match ty {
            Some(t) => t.as_u16(),
            None => u16::MAX,
        };
        let my_index = self.context.add_object(path_bytes.as_slice(), parent_index, type_id);
        proof {
            let objs = self.context.spec_objects();
            let objs0 = old(self).context.spec_objects();
            assert forall|i: int| 0 <= i < objs.len() implies #[trigger] depth(objs, i) <= self.max_depth by {
                if i < objs0.len() {
                    assert(depth(objs0, i) <= self.max_depth);
                }
            }
            assert forall|i: int| 0 <= i < objs0.len() implies {
                let x = #[trigger] objs0[i];
                let y = objs[i];
                &&& y.parent_index == x.parent_index
                &&& y.path == x.path
                &&& y.type_id == x.type_id
            } by {
                assert(objs[i].parent_index == objs0[i].parent_index);
            }
        }
        (ty, my_index)
    }

    /// Runs the analyzers at positions `start..end`, in order, until one
    /// asks to skip or exit.
    fn scan_range(&mut self, content: &mut Box<dyn Content<T>>, start: usize, end: usize) -> (r: NextAction)
        requires
            old(self).wf(),
        ensures
            final(self).wf(),
            final(self).same_setup(old(self)),
            final(self).same_analyzers(old(self)),
            plugin_step(old(self).context, final(self).context),
            final(self).spec_analyzer_calls().len() >= old(self).spec_analyzer_calls().len(),
            final(self).spec_analyzer_calls().take(old(self).spec_analyzer_calls().len() as int) == old(self).spec_analyzer_calls(),
            runs_in_order(
                planned(Some((start, end)), old(self).analyzers.spec_plugins().len() as int),
                final(self).spec_analyzer_calls().skip(old(self).spec_analyzer_calls().len() as int),
                r,
            ),
    {
        proof {
            lemma_plugin_step_refl(self.context);
        }
        let ghost calls0 = self.analyzer_calls@;
        let ghost n0 = calls0.len() as int;
        if end <= start || end > self.analyzers.len() {
            assert(self.analyzer_calls@.skip(n0) =~= Seq::<(int, NextAction)>::empty());
            assert(self.analyzer_calls@.take(n0) =~= calls0);
            return NextAction::Continue;
        }
        let ghost ctx0 = self.context;
        let mut i: usize = start;
        while i < end
            invariant
                self.wf(),
                self.same_setup(old(self)),
                self.same_analyzers(old(self)),
                ctx0 == old(self).context,
                plugin_step(ctx0, self.context),
                end <= self.analyzers.spec_plugins().len(),
                start <= i <= end,
                calls0 == old(self).analyzer_calls@,
                n0 == calls0.len(),
                self.analyzer_calls@.len() == n0 + (i - start),
                self.analyzer_calls@.take(n0) == calls0,
                forall|k: int| 0 <= k < i - start ==> #[trigger] self.analyzer_calls@[n0 + k] == (start + k, NextAction::Continue),
            decreases end - i,
        {
            let ghost before = self.context;
            let ghost plugins_before = self.analyzers.spec_plugins();
            let result = self.analyzers.get(i).analyze(content, &mut self.context);
            proof {
                lemma_plugin_step_trans(ctx0, before, self.context);
                lemma_step_depth(before, self.context, self.max_depth as int);
                assert forall|j: int| 0 <= j < self.analyzers.spec_plugins().len() implies
                    (#[trigger] self.analyzers.spec_plugins()[j]).0 == old(self).analyzers.spec_plugins()[j].0 by {
                    assert(self.analyzers.spec_plugins()[j].0 == plugins_before[j].0);
                }
                let prev = self.analyzer_calls@;
                self.analyzer_calls@ = prev.push((i as int, result));
                assert(self.analyzer_calls@.take(n0) =~= calls0) by {
                    assert(prev.take(n0) == calls0);
                    assert forall|k: int| 0 <= k < n0 implies self.analyzer_calls@.take(n0)[k] == calls0[k] by {
                        assert(self.analyzer_calls@[k] == prev[k]);
                        assert(prev.take(n0)[k] == prev[k]);
                    }
                }
                assert forall|k: int| 0 <= k < i - start implies #[trigger] self.analyzer_calls@[n0 + k] == (start + k, NextAction::Continue) by {
                    assert(self.analyzer_calls@[n0 + k] == prev[n0 + k]);
                }
            }
            match result {
                NextAction::Continue => {},
                NextAction::Exit => {
                    proof {
                        lemma_appended_run(self.analyzer_calls@, n0, start as int, end as int, result);
                    }
                    return NextAction::Exit;
                },
                NextAction::Skip => {
                    proof {
                        lemma_appended_run(self.analyzer_calls@, n0, start as int, end as int, result);
                    }
                    return NextAction::Skip;
                },
            }
            i = i + 1;
        }
        proof {
            if i > start {
                assert(self.analyzer_calls@[n0 + (i - start - 1)] == (start + (i - start - 1), NextAction::Continue));
            }
            lemma_appended_run(self.analyzer_calls@, n0, start as int, end as int, NextAction::Continue);
        }
        NextAction::Continue
    }

    /// Runs the analyzers registered for `content_type`, then the generic
    /// ones, until one asks to skip or exit.
    fn run_analyzers(&mut self, content: &mut Box<dyn Content<T>>, content_type: Option<T>) -> (r: NextAction)
        requires
            old(self).wf(),
        ensures
            final(self).wf(),
            final(self).same_setup(old(self)),
            plugin_step(old(self).context, final(self).context),
            final(self).spec_analyzer_calls().len() >= old(self).spec_analyzer_calls().len(),
            final(self).spec_analyzer_calls().take(old(self).spec_analyzer_calls().len() as int) == old(self).spec_analyzer_calls(),
            runs_in_order(
                old(self).typed_analyzers(content_type) + old(self).generic_analyzers(),
                final(self).spec_analyzer_calls().skip(old(self).spec_analyzer_calls().len() as int),
                r,
            ),
    {
        proof {
            lemma_plugin_step_refl(self.context);
        }
        let ghost ctx0 = self.context;
        let ghost calls0 = self.analyzer_calls@;
        let ghost n0 = calls0.len() as int;
        let ghost typed = old(self).typed_analyzers(content_type);
        let ghost generic = old(self).generic_analyzers();
        if let Some(ty) = content_type {
            if let Some((start, end)) = self.analyzers.range(ty) {
                let res = self.scan_range(content, start, end);
                match res {
                    NextAction::Continue => {},
                    _ => {
                        return res;
                    },
                }
            }
        }
        let ghost ctx1 = self.context;
        let ghost first = self.analyzer_calls@.skip(n0);
        proof {
            if first.len() == 0 {
                assert(first =~= Seq::<(int, NextAction)>::empty());
            }
        }
        let ghost n1 = self.analyzer_calls@.len() as int;
        let ghost calls1 = self.analyzer_calls@;
        proof {
            assert(runs_in_order(typed, first, NextAction::Continue));
            assert(calls1 =~= calls0 + first);
            old(self).analyzers.lemma_same_ranges(&self.analyzers);
        }
        if let Some((start, end)) = self.analyzers.generic_range() {
            let res = self.scan_range(content, start, end);
            proof {
                lemma_plugin_step_trans(ctx0, ctx1, self.context);
                let second = self.analyzer_calls@.skip(n1);
                lemma_runs_concat(typed, generic, first, second, res);
                assert(self.analyzer_calls@ =~= calls1 + second);
                assert(self.analyzer_calls@.skip(n0) =~= first + second);
                assert(self.analyzer_calls@.take(n0) =~= calls0);
            }
            match res {
                NextAction::Continue => {},
                _ => {
                    return res;
                },
            }
        } else {
            proof {
                lemma_runs_concat(typed, generic, first, Seq::empty(), NextAction::Continue);
                assert(first + Seq::<(int, NextAction)>::empty() =~= first);
                assert(self.analyzer_calls@.skip(n0) =~= first);
                assert(self.analyzer_calls@.take(n0) =~= calls0);
            }
        }
        NextAction::Continue
    }

    /// Releases the parameter maps of the requests queued from `start` on
    /// and drops those requests.
    fn restore_extraction_request_stack(&mut self, start: usize)
        requires
            old(self).wf(),
            start <= old(self).context.spec_requests().len(),
        ensures
            final(self).wf(),
            final(self).same_setup(old(self)),
            final(self).context.spec_requests() == old(self).context.spec_requests().take(start as int),
            final(self).context.spec_objects() == old(self).context.spec_objects(),
            final(self).context.spec_arena() == old(self).context.spec_arena(),
            final(self).context.spec_store_findings() == old(self).context.spec_store_findings(),
            final(self).context.spec_current() == old(self).context.spec_current(),
    {
        self.context.restore_requests(start);
    }
}

impl<T: ContentType, M: FindingMetadata> Scanner<T, M> {
    /// Scans one object at depth `level` under `parent_index`: records it,
    /// runs its analyzers, then (unless an analyzer skipped or exited) its
    /// extractors and the extractions its analyzers requested, and finally
    /// drops those requests. Only `Exit` propagates to the caller.
    fn inner_scan(&mut self, content: &mut Box<dyn Content<T>>, level: u32, parent_index: u32) -> (r: NextAction)
        requires
            old(self).wf(),
            1 <= level <= old(self).spec_max_depth(),
            (parent_index == INVALID_INDEX && level == 1 && old(self).context.spec_objects().len() == 0)
                || (parent_index < old(self).context.spec_objects().len()
                    && depth(old(self).context.spec_objects(), parent_index as int) == level - 1),
        ensures
            final(self).wf(),
            final(self).same_setup(old(self)),
            grows(old(self).context, final(self).context),
            final(self).context.spec_requests() == old(self).context.spec_requests(),
            old(self).context.spec_objects().len() + 1 < INVALID_INDEX && !old(self).spec_has_stop()
                ==> final(self).context.spec_objects().len() > old(self).context.spec_objects().len(),
            adds_under(old(self).context, final(self).context, parent_index as int),
            final(self).context.spec_objects().len() > old(self).context.spec_objects().len() ==>
                final(self).context.spec_objects()[old(self).context.spec_objects().len() as int].parent_index == parent_index,
            final(self).context.spec_objects().len() > old(self).context.spec_objects().len()
                && old(content).spec_declared_type() is Some ==>
                final(self).context.spec_objects()[old(self).context.spec_objects().len() as int].type_id
                    == old(content).spec_declared_type()->0.id(),
            final(self).context.spec_objects().len() > old(self).context.spec_objects().len()
                && old(self).context.spec_arena().len() + encode_utf8(old(content).spec_path_of().printable()).len() <= 0xFFFF_FFFF
                ==> arena_slice(final(self).context.spec_arena(),
                    final(self).context.spec_objects()[old(self).context.spec_objects().len() as int].path)
                    == Some(encode_utf8(old(content).spec_path_of().printable())),
            final(self).context.spec_objects().len() > old(self).context.spec_objects().len() ==>
                exists|ty: Option<T>, a: int, b: int, ra: NextAction|
                    #[trigger] final(self).analyzers_ran_on(old(self), old(self).context.spec_objects().len() as int, ty, a, b, ra)
                    && (old(content).spec_declared_type() is Some ==> ty == old(content).spec_declared_type()),
            r != NextAction::Skip,
        decreases u32::MAX - level, 3u32,
    {
        let ghost s0 = *self;
        let ghost ctx0 = self.context;
        self.context.leave_object();
        proof {
            lemma_grows_refl(ctx0);
        }
        let start_req_count = self.context.requests_len();
        let stop = match &mut self.stop_condition {
            Some(c) => c.should_stop(),
            None => false,
        };
        if stop {
            proof {
                lemma_adds_none(ctx0, self.context, parent_index as int);
            }
            return NextAction::Exit;
        }
        if self.context.objects_scanned() >= INVALID_INDEX - 1 {
            proof {
                lemma_adds_none(ctx0, self.context, parent_index as int);
            }
            return NextAction::Exit;
        }
        let (ty, my_index) = self.create_object(content, parent_index);
        match self.context.observer_mut() {
            Some(o) => o.on_scan_object(content.path().as_printable_string(), ty),
            None => {},
        }
        let ghost ctx1 = self.context;
        let ghost s1 = *self;
        let mut response = self.run_analyzers(content, ty);
        let ghost ra = response;
        let ghost calls2 = self.analyzer_calls@;
        proof {
            s0.analyzers.lemma_same_ranges(&s1.analyzers);
            lemma_step_depth(ctx1, self.context, self.max_depth as int);
            lemma_grows_trans(ctx0, ctx1, self.context);
            lemma_grows_depth(ctx1, self.context, my_index as int);
            assert(self.context.spec_requests().take(ctx1.spec_requests().len() as int) == ctx1.spec_requests());
            assert(adds_under(ctx0, ctx1, parent_index as int));
            lemma_adds_none(ctx1, self.context, parent_index as int);
            lemma_adds_trans(ctx0, ctx1, self.context, parent_index as int, parent_index as int);
        }
        let ghost ctx2 = self.context;
        if response == NextAction::Continue {
            response = self.run_extractors(content, ty, level, my_index, start_req_count).0;
            proof {
                lemma_grows_trans(ctx0, ctx2, self.context);
                lemma_adds_trans(ctx0, ctx2, self.context, parent_index as int, my_index as int);
            }
        }
        let ghost ctx3 = self.context;
        self.restore_extraction_request_stack(start_req_count);
        proof {
            assert(grows(ctx3, self.context)) by {
                lemma_grows_refl(ctx3);
            }
            lemma_grows_trans(ctx0, ctx3, self.context);
            lemma_adds_none(ctx3, self.context, parent_index as int);
            lemma_adds_trans(ctx0, ctx3, self.context, parent_index as int, parent_index as int);
            assert(self.context.spec_objects()[ctx0.spec_objects().len() as int].parent_index
                == ctx1.spec_objects()[ctx0.spec_objects().len() as int].parent_index);
            let n = ctx0.spec_objects().len() as int;
            assert(self.context.spec_objects()[n].path == ctx1.spec_objects()[n].path);
            assert(self.context.spec_objects()[n].type_id == ctx1.spec_objects()[n].type_id);
            if arena_slice(ctx1.spec_arena(), ctx1.spec_objects()[n].path) is Some {
                lemma_slice_kept(ctx1.spec_arena(), self.context.spec_arena(), ctx1.spec_objects()[n].path);
            }
            assert forall|j: int| 0 <= j < start_req_count implies
                #[trigger] self.context.spec_requests()[j] == ctx0.spec_requests()[j] by {
                assert(ctx3.spec_requests()[j] == ctx2.spec_requests()[j]);
                assert(ctx2.spec_requests().take(ctx1.spec_requests().len() as int)[j] == ctx1.spec_requests()[j]);
            }
            assert(self.context.spec_requests() =~= ctx0.spec_requests());
            let a = s1.analyzer_calls@.len() as int;
            let b = calls2.len() as int;
            assert(self.analyzer_calls@.subrange(a, b) =~= calls2.skip(a));
            assert(s1.typed_analyzers(ty) == s0.typed_analyzers(ty));
            assert(s1.generic_analyzers() == s0.generic_analyzers());
            assert(self.analyzers_ran_on(&s0, n, ty, a, b, ra));
        }
        match response {
            NextAction::Exit => NextAction::Exit,
            _ => NextAction::Continue,
        }
    }

    /// Runs the extractors of the object's own type, then those of each
    /// type its analyzers requested (from `start_req_index` on), until one
    /// pass exits; a requested type without extractors just frees its
    /// parameters. The requests are served in the order they were queued:
    /// the returned marks cut the objects added after the object's own
    /// pass into one span per served request, in request order, each span
    /// a forest under `my_index`.
    fn run_extractors(
        &mut self,
        content: &mut Box<dyn Content<T>>,
        content_type: Option<T>,
        level: u32,
        my_index: u32,
        start_req_index: usize,
    ) -> (r: (NextAction, Ghost<Seq<int>>))
        requires
            old(self).wf(),
            1 <= level <= old(self).spec_max_depth(),
            my_index < old(self).context.spec_objects().len(),
            depth(old(self).context.spec_objects(), my_index as int) == level,
            start_req_index <= old(self).context.spec_requests().len(),
        ensures
            ({
                let marks = r.1@;
                &&& 1 <= marks.len() <= old(self).context.spec_requests().len() - start_req_index + 1
                &&& r.0 == NextAction::Continue ==> marks.len() == old(self).context.spec_requests().len() - start_req_index + 1
                &&& old(self).context.spec_objects().len() <= marks[0]
                &&& marks.last() == final(self).context.spec_objects().len()
                &&& forall|k: int| 0 <= k < marks.len() - 1 ==> #[trigger] marks[k] <= marks[k + 1]
                    && forest_in(final(self).context.spec_objects(), marks[k], marks[k + 1], my_index as int)
            }),
            final(self).wf(),
            final(self).same_setup(old(self)),
            grows(old(self).context, final(self).context),
            final(self).context.spec_requests().len() == old(self).context.spec_requests().len(),
            forall|j: int| 0 <= j < start_req_index ==>
                #[trigger] final(self).context.spec_requests()[j] == old(self).context.spec_requests()[j],
            r.0 == NextAction::Continue ==> forall|j: int| start_req_index <= j < old(self).context.spec_requests().len() ==>
                (#[trigger] final(self).context.spec_requests()[j]).params_handle is None,
            r.0 == NextAction::Exit && !old(self).spec_has_stop() ==>
                final(self).context.spec_objects().len() > old(self).context.spec_objects().len()
                || final(self).context.spec_objects().len() + 1 >= INVALID_INDEX,
            adds_under(old(self).context, final(self).context, my_index as int),
            r.0 != NextAction::Skip,
        decreases u32::MAX - level, 2u32,
    {
        let ghost ctx0 = self.context;
        proof {
            lemma_grows_refl(ctx0);
            lemma_adds_none(ctx0, ctx0, my_index as int);
        }
        if let Some(ty) = content_type {
            if let Some((start, end)) = self.extractors.range(ty) {
                let res = self.extract_range(content, start, end, level, my_index, None).0;
                proof {
                    lemma_grows_depth(ctx0, self.context, my_index as int);
                }
                if res != NextAction::Continue {
                    let ghost early: Seq<int> = seq![self.context.spec_objects().len() as int];
                    return (res, Ghost(early));
                }
            }
        }
        let ghost ctx1 = self.context;
        let ghost mut marks: Seq<int> = seq![self.context.spec_objects().len() as int];
        let req_count = self.context.requests_len();
        let mut i: usize = start_req_index;
        while i < req_count
            invariant
                self.wf(),
                self.same_setup(old(self)),
                grows(ctx0, self.context),
                ctx0 == old(self).context,
                1 <= level <= self.spec_max_depth(),
                my_index < self.context.spec_objects().len(),
                depth(self.context.spec_objects(), my_index as int) == level,
                req_count == ctx0.spec_requests().len(),
                self.context.spec_requests().len() == req_count,
                adds_under(ctx0, self.context, my_index as int),
                start_req_index <= i <= req_count,
                forall|j: int| 0 <= j < start_req_index ==>
                    #[trigger] self.context.spec_requests()[j] == ctx0.spec_requests()[j],
                forall|j: int| start_req_index <= j < i ==> (#[trigger] self.context.spec_requests()[j]).params_handle is None,
                marks.len() == i - start_req_index + 1,
                ctx0.spec_objects().len() <= marks[0],
                marks.last() == self.context.spec_objects().len(),
                forall|k: int| 0 <= k < marks.len() - 1 ==> #[trigger] marks[k] <= marks[k + 1]
                    && forest_in(self.context.spec_objects(), marks[k], marks[k + 1], my_index as int),
            decreases req_count - i,
        {
            let req = self.context.request(i);
            let ghost ctxa = self.context;
            let ghost marks_a = marks;
            match self.extractors.range(req.content_type) {
                Some((start, end)) => {
                    let res = self.extract_range(content, start, end, level, my_index, Some(i)).0;
                    proof {
                        lemma_marks_step(ctxa, self.context, marks_a, my_index as int);
                        marks = marks_a.push(self.context.spec_objects().len() as int);
                        lemma_adds_trans(ctx0, ctxa, self.context, my_index as int, my_index as int);
                        lemma_grows_trans(ctx0, ctxa, self.context);
                        lemma_grows_depth(ctxa, self.context, my_index as int);
                        assert forall|j: int| 0 <= j < start_req_index implies
                            #[trigger] self.context.spec_requests()[j] == ctx0.spec_requests()[j] by {
                            assert(Some(i) != Some(j as usize));
                            assert(self.context.spec_requests()[j] == ctxa.spec_requests()[j]);
                        }
                        assert forall|j: int| start_req_index <= j <= i implies
                            (#[trigger] self.context.spec_requests()[j]).params_handle is None by {
                            if j < i {
                                assert(Some(i) != Some(j as usize));
                                assert(self.context.spec_requests()[j] == ctxa.spec_requests()[j]);
                            }
                        }
                    }
                    if res != NextAction::Continue {
                        return (res, Ghost(marks));
                    }
                },
                None => {
                    self.context.finish_request(Some(i), req.params_handle);
                    proof {
                        lemma_adds_none(ctxa, self.context, my_index as int);
                        lemma_grows_refl(ctxa);
                        assert(grows(ctxa, self.context));
                        lemma_marks_step(ctxa, self.context, marks_a, my_index as int);
                        marks = marks_a.push(self.context.spec_objects().len() as int);
                        lemma_grows_refl(ctxa);
                        assert(grows(ctxa, self.context));
                        lemma_adds_none(ctxa, self.context, my_index as int);
                        lemma_adds_trans(ctx0, ctxa, self.context, my_index as int, my_index as int);
                        lemma_grows_trans(ctx0, ctxa, self.context);
                        assert forall|j: int| 0 <= j < start_req_index implies
                            #[trigger] self.context.spec_requests()[j] == ctx0.spec_requests()[j] by {
                            assert(Some(i) != Some(j as usize));
                            assert(self.context.spec_requests()[j] == ctxa.spec_requests()[j]);
                        }
                        assert forall|j: int| start_req_index <= j <= i implies
                            (#[trigger] self.context.spec_requests()[j]).params_handle is None by {
                            if j < i {
                                assert(Some(i) != Some(j as usize));
                                assert(ctxa.spec_requests()[j].params_handle is None);
                            }
                        }
                    }
                },
            }
            i = i + 1;
        }
        (NextAction::Continue, Ghost(marks))
    }

    /// Runs the extractors at positions `start..end` on `content` for the
    /// whole object (no request) or for request `req_index`, until one pass
    /// exits; then frees the request's parameters. The ghost part of the
    /// result records each extractor pass made: its position and answer.
    fn extract_range(
        &mut self,
        content: &mut Box<dyn Content<T>>,
        start: usize,
        end: usize,
        level: u32,
        parent_index: u32,
        req_index: Option<usize>,
    ) -> (r: (NextAction, Ghost<Seq<(int, NextAction)>>))
        requires
            old(self).wf(),
            1 <= level <= old(self).spec_max_depth(),
            parent_index < old(self).context.spec_objects().len(),
            depth(old(self).context.spec_objects(), parent_index as int) == level,
            req_index matches Some(ri) ==> ri < old(self).context.spec_requests().len(),
        ensures
            final(self).wf(),
            final(self).same_setup(old(self)),
            grows(old(self).context, final(self).context),
            final(self).context.spec_requests().len() == old(self).context.spec_requests().len(),
            forall|j: int| 0 <= j < old(self).context.spec_requests().len() && req_index != Some(j as usize) ==>
                #[trigger] final(self).context.spec_requests()[j] == old(self).context.spec_requests()[j],
            runs_in_order(planned(Some((start, end)), old(self).extractors.spec_plugins().len() as int), r.1@, r.0),
            (end <= start || end > old(self).extractors.spec_plugins().len())
                ==> r.0 == NextAction::Continue && final(self).context == old(self).context,
            start < end <= old(self).extractors.spec_plugins().len() && req_index is Some ==> {
                let ri = req_index.unwrap() as int;
                &&& final(self).context.spec_requests()[ri].params_handle is None
                &&& (old(self).context.spec_requests()[ri].params_handle matches Some(h)
                    ==> !final(self).context.spec_live().contains(h))
            },
            r.0 == NextAction::Exit && !old(self).spec_has_stop() ==>
                final(self).context.spec_objects().len() > old(self).context.spec_objects().len()
                || final(self).context.spec_objects().len() + 1 >= INVALID_INDEX,
            adds_under(old(self).context, final(self).context, parent_index as int),
            r.0 != NextAction::Skip,
        decreases u32::MAX - level, 1u32,
    {
        let ghost ctx0 = self.context;
        proof {
            lemma_grows_refl(ctx0);
        }
        proof {
            lemma_adds_none(ctx0, ctx0, parent_index as int);
        }
        if end <= start || end > self.extractors.len() {
            return (NextAction::Continue, Ghost(Seq::empty()));
        }
        let meta = match req_index {
            Some(ri) => {
                let req = self.context.request(ri);
                ExtractionRequestMetadata::of_request(&req)
            },
            None => ExtractionRequestMetadata::whole(content.size()),
        };
        let mut next_action = NextAction::Continue;
        let ghost mut calls: Seq<(int, NextAction)> = Seq::empty();
        let mut i: usize = start;
        while i < end
            invariant_except_break
                next_action == NextAction::Continue,
                calls.len() == i - start,
                forall|k: int| 0 <= k < calls.len() ==> #[trigger] calls[k] == (start + k, NextAction::Continue),
            invariant
                self.wf(),
                self.same_setup(old(self)),
                grows(ctx0, self.context),
                ctx0 == old(self).context,
                1 <= level <= self.spec_max_depth(),
                parent_index < self.context.spec_objects().len(),
                depth(self.context.spec_objects(), parent_index as int) == level,
                self.context.spec_requests() == ctx0.spec_requests(),
                end <= self.extractors.spec_plugins().len(),
                start <= i <= end,
                next_action != NextAction::Skip,
                next_action == NextAction::Exit && !old(self).spec_has_stop() ==>
                    self.context.spec_objects().len() > ctx0.spec_objects().len()
                    || self.context.spec_objects().len() + 1 >= INVALID_INDEX,
                adds_under(ctx0, self.context, parent_index as int),
            ensures
                runs_in_order(index_range(start as int, end as int), calls, next_action),
            decreases end - i,
        {
            let ghost ctxa = self.context;
            let result = self.extract_content(content, i, level, parent_index, &meta).0;
            proof {
                let prior = calls;
                calls = calls.push((i as int, result));
                assert forall|k: int| 0 <= k < calls.len() - 1 implies #[trigger] calls[k] == (start + k, NextAction::Continue) by {
                    assert(calls[k] == prior[k]);
                }
                lemma_adds_trans(ctx0, ctxa, self.context, parent_index as int, parent_index as int);
                lemma_grows_trans(ctx0, ctxa, self.context);
                lemma_grows_depth(ctxa, self.context, parent_index as int);
            }
            if result != NextAction::Continue {
                next_action = result;
                break;
            }
            i = i + 1;
        }
        let ghost ctx1 = self.context;
        let finished: Option<usize> = match req_index {
            Some(ri) => {
                if meta.params_handle.is_some() {
                    Some(ri)
                } else {
                    None
                }
            },
            None => None,
        };
        self.context.finish_request(finished, meta.params_handle);
        proof {
            lemma_grows_refl(ctx1);
            assert(grows(ctx1, self.context));
            lemma_adds_none(ctx1, self.context, parent_index as int);
            lemma_adds_trans(ctx0, ctx1, self.context, parent_index as int, parent_index as int);
            lemma_grows_trans(ctx0, ctx1, self.context);
        }
        (next_action, Ghost(calls))
    }

    /// Runs extractor `index` on `content`: while its session announces
    /// entries, each entry that passes the filter (or skips it) is
    /// extracted and scanned one level deeper, until a child's scan exits.
    /// Nothing is extracted at the maximum depth.
    fn extract_content(
        &mut self,
        content: &mut Box<dyn Content<T>>,
        index: usize,
        level: u32,
        parent_index: u32,
        meta: &ExtractionRequestMetadata,
    ) -> (r: (NextAction, Ghost<Option<Seq<PassStep>>>))
        requires
            old(self).wf(),
            1 <= level <= old(self).spec_max_depth(),
            parent_index < old(self).context.spec_objects().len(),
            depth(old(self).context.spec_objects(), parent_index as int) == level,
        ensures
            final(self).wf(),
            final(self).same_setup(old(self)),
            grows(old(self).context, final(self).context),
            final(self).context.spec_requests() == old(self).context.spec_requests(),
            (level >= old(self).spec_max_depth() || index >= old(self).extractors.spec_plugins().len())
                ==> r.0 == NextAction::Continue && final(self).context == old(self).context && r.1@ is None,
            match r.1@ {
                Some(steps) => pass_ran(steps, r.0),
                None => r.0 == NextAction::Continue,
            },
            r.0 == NextAction::Exit && !old(self).spec_has_stop() ==>
                final(self).context.spec_objects().len() > old(self).context.spec_objects().len()
                || final(self).context.spec_objects().len() + 1 >= INVALID_INDEX,
            adds_under(old(self).context, final(self).context, parent_index as int),
            r.0 != NextAction::Skip,
        decreases u32::MAX - level, 0u32,
    {
        let ghost ctx0 = self.context;
        proof {
            lemma_grows_refl(ctx0);
        }
        proof {
            lemma_adds_none(ctx0, ctx0, parent_index as int);
        }
        if level >= self.max_depth {
            return (NextAction::Continue, Ghost(None));
        }
        if index >= self.extractors.len() {
            return (NextAction::Continue, Ghost(None));
        }
        let session = {
            let ec = self.context.extraction_context(meta.start, meta.len, meta.params_handle);
            self.extractors.get(index).create_session(content, &ec)
        };
        match session {
            None => (NextAction::Continue, Ghost(None)),
            Some(mut session) => {
                let mut budget: u64 = u64::MAX;
                let ghost mut steps: Seq<PassStep> = Seq::empty();
                while budget > 0
                    invariant_except_break
                        steps.len() == u64::MAX - budget,
                        forall|k: int| 0 <= k < steps.len() ==> pass_goes_on(#[trigger] steps[k]),
                    invariant
                        self.wf(),
                        self.same_setup(old(self)),
                        grows(ctx0, self.context),
                        ctx0 == old(self).context,
                        1 <= level < self.spec_max_depth(),
                        index < old(self).extractors.spec_plugins().len(),
                        parent_index < self.context.spec_objects().len(),
                        depth(self.context.spec_objects(), parent_index as int) == level,
                        self.context.spec_requests() == ctx0.spec_requests(),
                        adds_under(ctx0, self.context, parent_index as int),
                    ensures
                        pass_ran(steps, NextAction::Continue),
                    decreases budget,
                {
                    budget = budget - 1;
                    let next = session.advance(content);
                    if next.is_none() {
                        proof {
                            steps = steps.push(PassStep::End);
                        }
                        break;
                    }
                    let entry = next.unwrap();
                    let verdict: Option<bool> = if entry.skip_from_filtering {
                        None
                    } else {
                        match &mut self.filter {
                            Some(f) => Some(f.should_process(&entry.path, entry.size)),
                            None => None,
                        }
                    };
                    if !entry_accepted(entry.skip_from_filtering, verdict) {
                        match self.context.observer_mut() {
                            Some(o) => o.on_filtered(entry.path.as_printable_string()),
                            None => {},
                        }
                        proof {
                            steps = steps.push(PassStep::Filtered);
                        }
                    } else {
                        match self.context.observer_mut() {
                            Some(o) => o.on_extraction(content.path().as_printable_string(), entry),
                            None => {},
                        }
                        match session.extract(content) {
                            Some(mut child) => {
                                let ghost ctxa = self.context;
                                let result = self.inner_scan(&mut child, level + 1, parent_index);
                                proof {
                                    lemma_adds_trans(ctx0, ctxa, self.context, parent_index as int, parent_index as int);
                                    lemma_grows_trans(ctx0, ctxa, self.context);
                                    lemma_grows_depth(ctxa, self.context, parent_index as int);
                                }
                                proof {
                                    steps = steps.push(PassStep::Scanned(result));
                                }
                                if child_ends_pass(result) {
                                    return (NextAction::Exit, Ghost(Some(steps)));
                                }
                            },
                            None => {
                                proof {
                                    steps = steps.push(PassStep::NotExtracted);
                                }
                            },
                        }
                    }
                }
                (NextAction::Continue, Ghost(Some(steps)))
            },
        }
    }

    /// Scans `content` and its extracted descendants.
    ///
    /// The context is cleared first. When `filter_root` is set and a
    /// filter is configured, the root must pass it, or nothing is scanned.
    /// The result borrows the scanner until its next use.
    pub fn scan<'a>(&'a mut self, content: &mut Box<dyn Content<T>>, filter_root: bool) -> (r: ScanResult<'a, T, M>)
        requires
            old(self).wf(),
        ensures
            final(self).wf(),
            final(self).same_setup(old(self)),
            *r.spec_context() == final(self).spec_context(),
            r.wf(),
            tree_wf(r.objects()),
            depth_ok(r.objects(), old(self).spec_max_depth()),
            (!filter_root || !old(self).spec_has_filter()) && !old(self).spec_has_stop() ==> r.objects().len() >= 1,
            r.objects().len() == 0 ==> (filter_root && old(self).spec_has_filter()) || old(self).spec_has_stop(),
            r.objects().len() == 0 && !old(self).spec_has_stop() ==> {
                &&& r.spec_context().spec_findings().len() == 0
                &&& r.spec_context().spec_live().is_empty()
                &&& varmap_entries(r.spec_context().spec_global()) == 0
            },
            r.objects().len() > 0 ==> r.objects()[0].parent_index == INVALID_INDEX,
            r.objects().len() > 0 && old(content).spec_declared_type() is Some
                ==> r.objects()[0].type_id == old(content).spec_declared_type()->0.id(),
            r.objects().len() > 0 && encode_utf8(old(content).spec_path_of().printable()).len() <= 0xFFFF_FFFF
                ==> arena_slice(r.spec_context().spec_arena(), r.objects()[0].path)
                    == Some(encode_utf8(old(content).spec_path_of().printable())),
            forall|i: int| 0 <= i < r.objects().len() ==> {
                let p = #[trigger] r.objects()[i].parent_index;
                p == INVALID_INDEX || p < i
            },
            r.spec_context().spec_requests().len() == 0,
            filter_root && old(self).spec_filter() is Some && !old(self).spec_has_stop() ==>
                exists|hits: Seq<bool>| hits.len() == old(self).spec_filter()->0.spec_rule_list().len()
                    && (r.objects().len() > 0 <==> #[trigger] decide(old(self).spec_filter()->0.spec_rule_list(),
                        lower_name(old(content).spec_path_of().spec_bytes()),
                        extension_of(lower_name(old(content).spec_path_of().spec_bytes())), hits,
                        old(self).spec_filter()->0.spec_default())),
            filter_root && old(self).spec_filter() is Some && !old(self).spec_has_stop()
                && no_custom_tests(old(self).spec_filter()->0.spec_rule_list()) ==>
                (r.objects().len() > 0 <==> decide(old(self).spec_filter()->0.spec_rule_list(),
                    lower_name(old(content).spec_path_of().spec_bytes()),
                    extension_of(lower_name(old(content).spec_path_of().spec_bytes())),
                    Seq::new(old(self).spec_filter()->0.spec_rule_list().len(), |i: int| false),
                    old(self).spec_filter()->0.spec_default())),
            filter_root && old(self).spec_filter() is Some && !old(self).spec_has_stop()
                && old(self).spec_filter()->0.spec_tests_obey() ==>
                (r.objects().len() > 0 <==> decide(old(self).spec_filter()->0.spec_rule_list(),
                    lower_name(old(content).spec_path_of().spec_bytes()),
                    extension_of(lower_name(old(content).spec_path_of().spec_bytes())),
                    old(self).spec_filter()->0.spec_hits(*old(content).spec_path_of(), old(content).spec_size_of()),
                    old(self).spec_filter()->0.spec_default())),
            r.objects().len() > 0 ==> exists|ty: Option<T>, a: int, b: int, ra: NextAction|
                #[trigger] final(self).analyzers_ran_on(old(self), 0, ty, a, b, ra)
                && (old(content).spec_declared_type() is Some ==> ty == old(content).spec_declared_type()),
    {
        let ghost s_old = *self;
        let ghost pb = old(content).spec_path_of().spec_bytes();
        let ghost mut hits: Seq<bool> = Seq::empty();
        self.context.clear();
        match self.context.observer_mut() {
            Some(o) => o.on_begin(content.path().as_printable_string()),
            None => {},
        }
        if filter_root {
            match &mut self.filter {
                Some(f) => {
                    let size = content.size();
                    let ghost f0 = *f;
                    let pass = f.should_process(content.path(), size);
                    proof {
                        hits = choose|hits: Seq<bool>| hits.len() == f0.spec_rule_list().len()
                            && pass == #[trigger] decide(f0.spec_rule_list(), lower_name(pb),
                                extension_of(lower_name(pb)), hits, f0.spec_default());
                    }
                    if !pass {
                        match self.context.observer_mut() {
                            Some(o) => {
                                o.on_filtered(content.path().as_printable_string());
                                o.on_end();
                            },
                            None => {},
                        }
                        proof {
                            crate::context::lemma_wf_tree(self.context);
                        }
                        return ScanResult::new(&self.context);
                    }
                },
                None => {},
            }
        }
        let ghost ctx0 = self.context;
        let ghost s_mid = *self;
        self.inner_scan(content, 1, INVALID_INDEX);
        let ghost s_after = *self;
        match self.context.observer_mut() {
            Some(o) => o.on_end(),
            None => {},
        }
        proof {
            if s_after.context.spec_objects().len() > 0 {
                let (ty, a, b, ra) = choose|ty: Option<T>, a: int, b: int, ra: NextAction|
                    #[trigger] s_after.analyzers_ran_on(&s_mid, 0, ty, a, b, ra)
                    && (old(content).spec_declared_type() is Some ==> ty == old(content).spec_declared_type());
                assert(self.analyzers_ran_on(&s_old, 0, ty, a, b, ra));
            }
            crate::context::lemma_wf_tree(self.context);
            assert forall|i: int| 0 <= i < self.context.spec_objects().len() implies {
                let p = #[trigger] self.context.spec_objects()[i].parent_index;
                p == INVALID_INDEX || p < i
            } by {
                assert(ctx0.spec_objects().len() <= i);
            }
        }
        ScanResult::new(&self.context)
    }
}

impl<T: ContentType, M: FindingMetadata> Scanner<T, M> {
    /// A scanner from compiled parts and an empty context.
    pub(crate) fn assemble(
        filter: Option<Filter>,
        identifiers: IdentifierSet<T>,
        analyzers: AnalyzerList<Box<dyn ContentAnalyzer<T, M>>>,
        extractors: ExtractorList<Box<dyn ContentExtractor<T>>, T>,
        context: Context<T, M>,
        max_depth: u32,
        stop_condition: Option<Box<dyn StopCondition>>,
    ) -> (r: Self)
        requires
            filter matches Some(f) ==> f.wf(),
            identifiers.wf(),
            analyzers.wf(),
            extractors.wf(),
            context.wf(),
            context.spec_objects().len() == 0,
            1 <= max_depth <= u32::MAX - 2,
        ensures
            r.wf(),
            r.spec_max_depth() == max_depth,
            r.spec_has_filter() == (filter is Some),
            r.spec_context() == context,
            r.spec_has_stop() == (stop_condition is Some),
    {
        Scanner {
            filter,
            identifiers,
            analyzers,
            extractors,
            context,
            max_depth,
            stop_condition,
            analyzer_calls: Ghost(Seq::empty()),
        }
    }
}

} // verus!
