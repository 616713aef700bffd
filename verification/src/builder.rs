use vstd::prelude::*;
use vstd::string::StringSliceAdditionalSpecFns;
use crate::content::ContentType;
use crate::context::Context;
use crate::extractor_list::ExtractorList;
use crate::filter::Filter;
use crate::identifier_set::{
    add_family_patterns, all_patterns, family_fits, identifiers_buildable, magics_short, IdentifierSet,
};
use crate::interfaces::{
    ContentAnalyzer, ContentExtractor, ContentIdentifier, FindingMetadata, IdentifyMethod, NoMetadata, ScanObserver, StopCondition,
};
use crate::matcher::MatcherBuilder;
use crate::plugin_list::{generic_type, hash_type, PluginsList};
use crate::scanner::Scanner;
use crate::utils::{bytes_equal, lower_seq};

verus! {

/// The priority packed in the low half of an analyzer hash.
pub open spec fn priority_of(hash: u32) -> int {
    hash as int % 65536
}

/// Name and required names of an analyzer, as registered.
pub type AnalyzerInfo = (&'static str, &'static [&'static str]);

/// Position of the last analyzer registered under the name `name`.
pub open spec fn last_named(info: Seq<AnalyzerInfo>, name: Seq<u8>) -> Option<int>
    decreases info.len(),
{
    if info.len() == 0 {
        None
    } else if info.last().0.spec_bytes() == name {
        Some(info.len() - 1)
    } else {
        last_named(info.drop_last(), name)
    }
}

/// Every name an analyzer requires is registered, and its last
/// registration has a strictly smaller priority than the analyzer.
pub open spec fn dependencies_ok(info: Seq<AnalyzerInfo>, hashes: Seq<u32>) -> bool {
    forall|i: int, k: int| 0 <= i < info.len() && 0 <= k < info[i].1@.len() ==>
        match #[trigger] last_named(info, info[i].1@[k].spec_bytes()) {
            Some(j) => priority_of(hashes[j]) < priority_of(hashes[i]),
            None => false,
        }
}

/// No two identifiers are registered for the same content type.
pub open spec fn identifiers_unique<T: ContentType>(ids: Seq<(T, Option<IdentifyMethod>)>) -> bool {
    forall|i: int, j: int| 0 <= i < j < ids.len() ==> (#[trigger] ids[i]).0.id() != (#[trigger] ids[j]).0.id()
}

/// The clamp of a requested maximum depth to `1..=u32::MAX - 2`.
pub open spec fn clamp_depth(d: u32) -> u32 {
    if d < 1 { 1 } else if d > u32::MAX - 2 { (u32::MAX - 2) as u32 } else { d }
}

/// Fluent builder for [`Scanner`].
#[verifier::reject_recursive_types(T)]
#[verifier::reject_recursive_types(M)]
pub struct ScannerBuilder<T: ContentType, M: FindingMetadata> {
    filter: Option<Filter>,
    analyzers: Vec<(u32, Box<dyn ContentAnalyzer<T, M>>)>,
    analyzer_info: Vec<AnalyzerInfo>,
    extractors: Vec<(T, Box<dyn ContentExtractor<T>>)>,
    identifiers: Vec<(T, Box<dyn ContentIdentifier<T>>, Option<IdentifyMethod>)>,
    max_depth: u32,
    store_findings: bool,
    stop_condition: Option<Box<dyn StopCondition>>,
    observer: Option<Box<dyn ScanObserver<T, M>>>,
}

impl<T: ContentType, M: FindingMetadata> ScannerBuilder<T, M> {
    /// The analyzers' hashes: type id in the high half (`0xFFFF` for
    /// generic analyzers), priority in the low half.
    pub closed spec fn spec_hashes(&self) -> Seq<u32> {
        self.analyzers@.map_values(|a: (u32, Box<dyn ContentAnalyzer<T, M>>)| a.0)
    }

    /// The analyzers' names and required names.
    pub closed spec fn spec_info(&self) -> Seq<AnalyzerInfo> {
        self.analyzer_info@
    }

    /// The identifiers' types and identify methods.
    pub closed spec fn spec_identifiers(&self) -> Seq<(T, Option<IdentifyMethod>)> {
        self.identifiers@.map_values(|x: (T, Box<dyn ContentIdentifier<T>>, Option<IdentifyMethod>)| (x.0, x.2))
    }

    /// The extractors' types.
    pub closed spec fn spec_extractor_types(&self) -> Seq<T> {
        self.extractors@.map_values(|x: (T, Box<dyn ContentExtractor<T>>)| x.0)
    }

    pub closed spec fn spec_max_depth(&self) -> u32 {
        self.max_depth
    }

    pub closed spec fn spec_store_findings(&self) -> bool {
        self.store_findings
    }

    pub closed spec fn spec_has_filter(&self) -> bool {
        self.filter is Some
    }

    pub closed spec fn wf(&self) -> bool {
        &&& self.analyzers@.len() == self.analyzer_info@.len()
        &&& forall|i: int| 0 <= i < self.analyzers@.len() ==> #[trigger] hash_type(self.analyzers@[i].0) < T::COUNT
            || hash_type(self.analyzers@[i].0) == generic_type()
        &&& (self.filter matches Some(f) ==> f.wf())
        &&& 1 <= self.max_depth <= u32::MAX - 2
    }

    /// The builder can be turned into a scanner: few enough plugins, pattern
    /// sets that fit their matchers, one identifier per type, and every
    /// required analyzer registered with a smaller priority.
    pub open spec fn buildable(&self) -> bool {
        &&& self.spec_hashes().len() < 65535
        &&& self.spec_extractor_types().len() < 65535
        &&& identifiers_buildable(self.spec_identifiers())
        &&& identifiers_unique(self.spec_identifiers())
        &&& dependencies_ok(self.spec_info(), self.spec_hashes())
    }

    fn empty() -> (r: Self)
        ensures
            r.wf(),
            r.spec_hashes().len() == 0,
            r.spec_info().len() == 0,
            r.spec_identifiers().len() == 0,
            r.spec_extractor_types().len() == 0,
            r.spec_max_depth() == 8,
            r.spec_store_findings(),
            !r.spec_has_filter(),
    {
        let r = Self {
            filter: None,
            analyzers: Vec::new(),
            analyzer_info: Vec::new(),
            extractors: Vec::new(),
            identifiers: Vec::new(),
            max_depth: 8,
            store_findings: true,
            stop_condition: None,
            observer: None,
        };
        r
    }

    /// Attaches `observer`, replacing any previous one; it is told when a
    /// scan begins and ends, when a content is filtered out, scanned or
    /// extracted, and when a finding is recorded.
    pub fn observer<O: ScanObserver<T, M> + 'static>(self, observer: O) -> (r: Self)
        requires
            self.wf(),
        ensures
            r.wf(),
            r.spec_has_stop() == self.spec_has_stop(),
            r.spec_has_filter() == self.spec_has_filter(),
            r.spec_hashes() == self.spec_hashes(),
            r.spec_info() == self.spec_info(),
            r.spec_identifiers() == self.spec_identifiers(),
            r.spec_extractor_types() == self.spec_extractor_types(),
            r.spec_max_depth() == self.spec_max_depth(),
            r.spec_store_findings() == self.spec_store_findings(),
    {
        let o: Box<dyn ScanObserver<T, M>> = Box::new(observer);
        ScannerBuilder { observer: Some(o), ..self }
    }

    /// A stop condition is attached.
    pub closed spec fn spec_has_stop(&self) -> bool {
        self.stop_condition is Some
    }

    /// Attaches `stop_condition`, replacing any previous one; it is asked
    /// at the start of every content object whether the scan stops there.
    pub fn stop_condition<S: StopCondition + 'static>(self, stop_condition: S) -> (r: Self)
        requires
            self.wf(),
        ensures
            r.wf(),
            r.spec_has_stop(),
            r.spec_has_filter() == self.spec_has_filter(),
            r.spec_hashes() == self.spec_hashes(),
            r.spec_info() == self.spec_info(),
            r.spec_identifiers() == self.spec_identifiers(),
            r.spec_extractor_types() == self.spec_extractor_types(),
            r.spec_max_depth() == self.spec_max_depth(),
            r.spec_store_findings() == self.spec_store_findings(),
    {
        let s: Box<dyn StopCondition> = Box::new(stop_condition);
        ScannerBuilder { stop_condition: Some(s), ..self }
    }

    /// Attaches `filter`, replacing any previous one.
    pub fn filter(self, filter: Filter) -> (r: Self)
        requires
            self.wf(),
            filter.wf(),
        ensures
            r.wf(),
            r.spec_has_filter(),
            r.spec_hashes() == self.spec_hashes(),
            r.spec_info() == self.spec_info(),
            r.spec_identifiers() == self.spec_identifiers(),
            r.spec_extractor_types() == self.spec_extractor_types(),
            r.spec_max_depth() == self.spec_max_depth(),
            r.spec_store_findings() == self.spec_store_findings(),
    {
        ScannerBuilder { filter: Some(filter), ..self }
    }

    fn push_analyzer(self, hash: u32, analyzer: Box<dyn ContentAnalyzer<T, M>>, info: AnalyzerInfo) -> (r: Self)
        requires
            self.wf(),
            hash_type(hash) < T::COUNT || hash_type(hash) == generic_type(),
        ensures
            r.wf(),
            r.spec_hashes() == self.spec_hashes().push(hash),
            r.spec_info() == self.spec_info().push(info),
            r.spec_identifiers() == self.spec_identifiers(),
            r.spec_extractor_types() == self.spec_extractor_types(),
            r.spec_max_depth() == self.spec_max_depth(),
            r.spec_store_findings() == self.spec_store_findings(),
            r.spec_has_filter() == self.spec_has_filter(),
    {
        let ghost old_analyzers = self.analyzers@;
        let ScannerBuilder { filter, mut analyzers, mut analyzer_info, extractors, identifiers, max_depth, store_findings, stop_condition, observer } = self;
        let item = (hash, analyzer);
        analyzers.push(item);
        analyzer_info.push(info);
        assert(analyzers@.len() == old_analyzers.len() + 1);
        let r = ScannerBuilder { filter, analyzers, analyzer_info, extractors, identifiers, max_depth, store_findings, stop_condition, observer };
        assert(r.analyzers@.len() == old_analyzers.len() + 1);
        assert forall|k: int| 0 <= k < r.analyzers@.len() implies #[trigger] r.spec_hashes()[k] == self.spec_hashes().push(hash)[k] by {
            if k < old_analyzers.len() {
                assert(r.analyzers@[k] == old_analyzers[k]);
            }
        }
        assert(r.spec_hashes() =~= self.spec_hashes().push(hash));
        assert forall|i: int| 0 <= i < r.analyzers@.len() implies #[trigger] hash_type(r.analyzers@[i].0) < T::COUNT
            || hash_type(r.analyzers@[i].0) == generic_type() by {
            if i < old_analyzers.len() {
                assert(r.analyzers@[i] == old_analyzers[i]);
            }
        }
        r
    }

    /// Registers `analyzer` for `content_type`; analyzers of one type run in
    /// ascending `priority`.
    pub fn add_analyzer<A: ContentAnalyzer<T, M> + 'static>(self, content_type: T, priority: u8, analyzer: A) -> (r: Self)
        requires
            self.wf(),
        ensures
            r.wf(),
            r.spec_hashes().len() == self.spec_hashes().len() + 1,
            r.spec_hashes().drop_last() == self.spec_hashes(),
            hash_type(r.spec_hashes().last()) == content_type.id(),
            priority_of(r.spec_hashes().last()) == priority,
            r.spec_info().drop_last() == self.spec_info(),
            r.spec_info().len() == self.spec_info().len() + 1,
            r.spec_identifiers() == self.spec_identifiers(),
            r.spec_extractor_types() == self.spec_extractor_types(),
            r.spec_max_depth() == self.spec_max_depth(),
            r.spec_store_findings() == self.spec_store_findings(),
            r.spec_has_filter() == self.spec_has_filter(),
    {
        let id = content_type.as_u16();
        let hash: u32 = ((id as u32) << 16u32) | (priority as u32);
        assert(hash as int / 65536 == id && hash as int % 65536 == priority) by (bit_vector)
            requires hash == ((id as u32) << 16u32) | (priority as u32);
        let info = (analyzer.name(), analyzer.dependencies());
        let boxed: Box<dyn ContentAnalyzer<T, M>> = Box::new(analyzer);
        let r = self.push_analyzer(hash, boxed, info);
        assert(r.spec_hashes().drop_last() == self.spec_hashes());
        assert(r.spec_info().drop_last() == self.spec_info());
        r
    }

    /// Registers `analyzer` for every content object; generic analyzers run
    /// after the typed ones, in ascending `priority`.
    pub fn add_generic_analyzer<A: ContentAnalyzer<T, M> + 'static>(self, priority: u8, analyzer: A) -> (r: Self)
        requires
            self.wf(),
        ensures
            r.wf(),
            r.spec_hashes().len() == self.spec_hashes().len() + 1,
            r.spec_hashes().drop_last() == self.spec_hashes(),
            hash_type(r.spec_hashes().last()) == generic_type(),
            priority_of(r.spec_hashes().last()) == priority,
            r.spec_info().drop_last() == self.spec_info(),
            r.spec_info().len() == self.spec_info().len() + 1,
            r.spec_identifiers() == self.spec_identifiers(),
            r.spec_extractor_types() == self.spec_extractor_types(),
            r.spec_max_depth() == self.spec_max_depth(),
            r.spec_store_findings() == self.spec_store_findings(),
            r.spec_has_filter() == self.spec_has_filter(),
    {
        let hash: u32 = 0xFFFF_0000u32 | (priority as u32);
        assert(hash as int / 65536 == 65535 && hash as int % 65536 == priority) by (bit_vector)
            requires hash == 0xFFFF_0000u32 | (priority as u32);
        let info = (analyzer.name(), analyzer.dependencies());
        let boxed: Box<dyn ContentAnalyzer<T, M>> = Box::new(analyzer);
        let r = self.push_analyzer(hash, boxed, info);
        assert(r.spec_hashes().drop_last() == self.spec_hashes());
        assert(r.spec_info().drop_last() == self.spec_info());
        r
    }

    /// Registers `extractor` for `content_type`; extractors of one type run
    /// in registration order.
    pub fn add_extractor<E: ContentExtractor<T> + 'static>(self, content_type: T, extractor: E) -> (r: Self)
        requires
            self.wf(),
        ensures
            r.wf(),
            r.spec_extractor_types() == self.spec_extractor_types().push(content_type),
            r.spec_hashes() == self.spec_hashes(),
            r.spec_info() == self.spec_info(),
            r.spec_identifiers() == self.spec_identifiers(),
            r.spec_max_depth() == self.spec_max_depth(),
            r.spec_store_findings() == self.spec_store_findings(),
            r.spec_has_filter() == self.spec_has_filter(),
    {
        let boxed: Box<dyn ContentExtractor<T>> = Box::new(extractor);
        self.push_extractor(content_type, boxed)
    }

    fn push_extractor(self, content_type: T, boxed: Box<dyn ContentExtractor<T>>) -> (r: Self)
        requires
            self.wf(),
        ensures
            r.wf(),
            r.spec_extractor_types() == self.spec_extractor_types().push(content_type),
            r.spec_hashes() == self.spec_hashes(),
            r.spec_info() == self.spec_info(),
            r.spec_identifiers() == self.spec_identifiers(),
            r.spec_max_depth() == self.spec_max_depth(),
            r.spec_store_findings() == self.spec_store_findings(),
            r.spec_has_filter() == self.spec_has_filter(),
    {
        let ghost old_ex = self.extractors@;
        let ScannerBuilder { filter, analyzers, analyzer_info, mut extractors, identifiers, max_depth, store_findings, stop_condition, observer } = self;
        let item = (content_type, boxed);
        extractors.push(item);
        let r = ScannerBuilder { filter, analyzers, analyzer_info, extractors, identifiers, max_depth, store_findings, stop_condition, observer };
        assert forall|k: int| 0 <= k < old_ex.len() implies #[trigger] r.extractors@[k] == old_ex[k] by {}
        assert(r.spec_extractor_types() =~= self.spec_extractor_types().push(content_type));
        r
    }

    /// Registers `identifier` for `content_type`, with the identify method
    /// it declares now.
    pub fn add_identifier<I: ContentIdentifier<T> + 'static>(self, content_type: T, identifier: I) -> (r: Self)
        requires
            self.wf(),
        ensures
            r.wf(),
            r.spec_identifiers().len() == self.spec_identifiers().len() + 1,
            r.spec_identifiers().drop_last() == self.spec_identifiers(),
            r.spec_identifiers().last().0 == content_type,
            r.spec_extractor_types() == self.spec_extractor_types(),
            r.spec_hashes() == self.spec_hashes(),
            r.spec_info() == self.spec_info(),
            r.spec_max_depth() == self.spec_max_depth(),
            r.spec_store_findings() == self.spec_store_findings(),
            r.spec_has_filter() == self.spec_has_filter(),
    {
        let method = identifier.identify_method();
        let boxed: Box<dyn ContentIdentifier<T>> = Box::new(identifier);
        self.push_identifier(content_type, boxed, method)
    }

    fn push_identifier(self, content_type: T, boxed: Box<dyn ContentIdentifier<T>>, method: Option<IdentifyMethod>) -> (r: Self)
        requires
            self.wf(),
        ensures
            r.wf(),
            r.spec_identifiers() == self.spec_identifiers().push((content_type, method)),
            r.spec_extractor_types() == self.spec_extractor_types(),
            r.spec_hashes() == self.spec_hashes(),
            r.spec_info() == self.spec_info(),
            r.spec_max_depth() == self.spec_max_depth(),
            r.spec_store_findings() == self.spec_store_findings(),
            r.spec_has_filter() == self.spec_has_filter(),
    {
        let ghost old_ids = self.identifiers@;
        let ScannerBuilder { filter, analyzers, analyzer_info, extractors, mut identifiers, max_depth, store_findings, stop_condition, observer } = self;
        let item = (content_type, boxed, method);
        identifiers.push(item);
        let r = ScannerBuilder { filter, analyzers, analyzer_info, extractors, identifiers, max_depth, store_findings, stop_condition, observer };
        assert forall|k: int| 0 <= k < old_ids.len() implies #[trigger] r.identifiers@[k] == old_ids[k] by {}
        assert(r.spec_identifiers() =~= self.spec_identifiers().push((content_type, method)));
        r
    }

    /// Sets the maximum recursion depth, clamped to `1..=u32::MAX - 2`. The
    /// root is at depth 1.
    pub fn max_depth(self, max_depth: u32) -> (r: Self)
        requires
            self.wf(),
        ensures
            r.wf(),
            r.spec_max_depth() == clamp_depth(max_depth),
            r.spec_hashes() == self.spec_hashes(),
            r.spec_info() == self.spec_info(),
            r.spec_identifiers() == self.spec_identifiers(),
            r.spec_extractor_types() == self.spec_extractor_types(),
            r.spec_store_findings() == self.spec_store_findings(),
            r.spec_has_filter() == self.spec_has_filter(),
    {
        let d = if max_depth < 1 {
            1
        } else if max_depth > u32::MAX - 2 {
            u32::MAX - 2
        } else {
            max_depth
        };
        ScannerBuilder { max_depth: d, ..self }
    }

    /// Whether findings are kept for the scan result (the default).
    pub fn store_findings(self, store_findings: bool) -> (r: Self)
        requires
            self.wf(),
        ensures
            r.wf(),
            r.spec_store_findings() == store_findings,
            r.spec_max_depth() == self.spec_max_depth(),
            r.spec_hashes() == self.spec_hashes(),
            r.spec_info() == self.spec_info(),
            r.spec_identifiers() == self.spec_identifiers(),
            r.spec_extractor_types() == self.spec_extractor_types(),
            r.spec_has_filter() == self.spec_has_filter(),
    {
        ScannerBuilder { store_findings, ..self }
    }

    /// No content type has two identifiers.
    pub fn check_unique_identifiers(&self) -> (r: bool)
        ensures
            r == identifiers_unique(self.spec_identifiers()),
    {
        let n = self.identifiers.len();
        let ghost ids = self.spec_identifiers();
        let mut j: usize = 0;
        while j < n
            invariant
                n == ids.len(),
                ids == self.spec_identifiers(),
                j <= n,
                forall|a: int, b: int| 0 <= a < b < j ==> (#[trigger] ids[a]).0.id() != (#[trigger] ids[b]).0.id(),
            decreases n - j,
        {
            let idj = self.identifiers[j].0.as_u16();
            assert(ids[j as int].0 == self.identifiers@[j as int].0);
            let mut i: usize = 0;
            while i < j
                invariant
                    n == ids.len(),
                    ids == self.spec_identifiers(),
                    i <= j < n,
                    idj == ids[j as int].0.id(),
                    forall|a: int| 0 <= a < i ==> (#[trigger] ids[a]).0.id() != idj,
                decreases j - i,
            {
                assert(ids[i as int].0 == self.identifiers@[i as int].0);
                if self.identifiers[i].0.as_u16() == idj {
                    return false;
                }
                i = i + 1;
            }
            j = j + 1;
        }
        true
    }

    /// Every required analyzer is registered with a strictly smaller
    /// priority than the analyzer that requires it.
    pub fn check_dependencies(&self) -> (r: bool)
        requires
            self.wf(),
        ensures
            r == dependencies_ok(self.spec_info(), self.spec_hashes()),
    {
        let ghost info = self.spec_info();
        let ghost hashes = self.spec_hashes();
        let n = self.analyzer_info.len();
        let mut i: usize = 0;
        while i < n
            invariant
                self.wf(),
                info == self.spec_info(),
                hashes == self.spec_hashes(),
                n == info.len(),
                hashes.len() == n,
                i <= n,
                forall|a: int, k: int| 0 <= a < i && 0 <= k < info[a].1@.len() ==>
                    match #[trigger] last_named(info, info[a].1@[k].spec_bytes()) {
                        Some(j) => priority_of(hashes[j]) < priority_of(hashes[a]),
                        None => false,
                    },
            decreases n - i,
        {
            let deps = self.analyzer_info[i].1;
            let hi = self.analyzers[i].0;
            let own = hi & 0xFFFFu32;
            assert(own == hi % 65536) by (bit_vector)
                requires own == hi & 0xFFFFu32;
            assert(hashes[i as int] == self.analyzers@[i as int].0);
            let mut k: usize = 0;
            while k < deps.len()
                invariant
                    self.wf(),
                    info == self.spec_info(),
                    hashes == self.spec_hashes(),
                    n == info.len(),
                    hashes.len() == n,
                    i < n,
                    deps == info[i as int].1,
                    own == priority_of(hashes[i as int]),
                    k <= deps@.len(),
                    forall|kk: int| 0 <= kk < k ==>
                        match #[trigger] last_named(info, info[i as int].1@[kk].spec_bytes()) {
                            Some(j) => priority_of(hashes[j]) < priority_of(hashes[i as int]),
                            None => false,
                        },
                decreases deps@.len() - k,
            {
                let d = deps[k].as_bytes();
                let found = self.last_named_index(d);
                match found {
                    None => {
                        return false;
                    },
                    Some(j) => {
                        let hj = self.analyzers[j].0;
                        let other = hj & 0xFFFFu32;
                        assert(other == hj % 65536) by (bit_vector)
                            requires other == hj & 0xFFFFu32;
                        assert(hashes[j as int] == self.analyzers@[j as int].0);
                        if other >= own {
                            return false;
                        }
                    },
                }
                k = k + 1;
            }
            i = i + 1;
        }
        true
    }

    /// The position of the last analyzer registered under `name`.
    fn last_named_index(&self, name: &[u8]) -> (r: Option<usize>)
        requires
            self.wf(),
        ensures
            match r {
                Some(j) => last_named(self.spec_info(), name@) == Some(j as int) && j < self.spec_info().len(),
                None => last_named(self.spec_info(), name@) is None,
            },
    {
        let ghost info = self.spec_info();
        let mut j: usize = self.analyzer_info.len();
        assert(info.take(j as int) == info);
        while j > 0
            invariant
                info == self.spec_info(),
                j <= info.len(),
                last_named(info, name@) == last_named(info.take(j as int), name@),
            decreases j,
        {
            let candidate = self.analyzer_info[j - 1].0.as_bytes();
            proof {
                let t = info.take(j as int);
                assert(t.drop_last() == info.take(j - 1));
                assert(t.last() == info[j - 1]);
            }
            if bytes_equal(candidate, name) {
                return Some(j - 1);
            }
            j = j - 1;
        }
        None
    }
}

impl<T: ContentType, M: FindingMetadata> ScannerBuilder<T, M> {
    /// Compiles the registered plugins into a [`Scanner`]: analyzers sorted
    /// by type and priority, extractors by type, identifiers into their
    /// matchers, and an empty context.
    pub fn build(self) -> (r: Scanner<T, M>)
        requires
            self.wf(),
            self.buildable(),
        ensures
            r.wf(),
            r.spec_max_depth() == self.spec_max_depth(),
            r.spec_has_filter() == self.spec_has_filter(),
            r.spec_has_stop() == self.spec_has_stop(),
            r.spec_context().spec_objects().len() == 0,
            r.spec_context().spec_store_findings() == self.spec_store_findings(),
    {
        let ScannerBuilder { filter, analyzers, analyzer_info, extractors, identifiers, max_depth, store_findings, stop_condition, observer } = self;
        let analyzers = PluginsList::new(analyzers, T::COUNT);
        let extractors = ExtractorList::new(extractors);
        let identifiers = IdentifierSet::new(identifiers);
        let context = Context::new(observer, store_findings);
        Scanner::assemble(filter, identifiers, analyzers, extractors, context, max_depth, stop_condition)
    }
}

/// Why a builder cannot be turned into a scanner.
#[derive(Clone, Copy, Debug, PartialEq, Eq, Structural)]
pub enum BuildError {
    /// 65535 or more analyzers, or as many extractors.
    TooManyPlugins,
    /// A magic pattern is longer than 16 bytes, or a pattern family does
    /// not fit its matcher.
    PatternsTooLarge,
    /// Two identifiers are registered for one content type.
    DuplicateIdentifier,
    /// A required analyzer is missing or does not have a smaller priority.
    UnmetDependency,
}

impl<T: ContentType, M: FindingMetadata> ScannerBuilder<T, M> {
    /// Checks that the builder can be turned into a scanner and builds it;
    /// otherwise names the first condition that fails, in the order of
    /// [`BuildError`].
    pub fn try_build(self) -> (r: Result<Scanner<T, M>, BuildError>)
        requires
            self.wf(),
        ensures
            r is Ok <==> self.buildable(),
            r matches Ok(s) ==> {
                &&& s.wf()
                &&& s.spec_max_depth() == self.spec_max_depth()
                &&& s.spec_has_filter() == self.spec_has_filter()
                &&& s.spec_has_stop() == self.spec_has_stop()
                &&& s.spec_context().spec_objects().len() == 0
                &&& s.spec_context().spec_store_findings() == self.spec_store_findings()
            },
            r matches Err(e) ==> e == (if !(self.spec_hashes().len() < 65535 && self.spec_extractor_types().len() < 65535) {
                BuildError::TooManyPlugins
            } else if !identifiers_buildable(self.spec_identifiers()) {
                BuildError::PatternsTooLarge
            } else if !identifiers_unique(self.spec_identifiers()) {
                BuildError::DuplicateIdentifier
            } else {
                BuildError::UnmetDependency
            }),
    {
        if !(self.analyzers.len() < 65535 && self.extractors.len() < 65535) {
            return Err(BuildError::TooManyPlugins);
        }
        if !self.check_patterns() {
            return Err(BuildError::PatternsTooLarge);
        }
        if !self.check_unique_identifiers() {
            return Err(BuildError::DuplicateIdentifier);
        }
        if !self.check_dependencies() {
            return Err(BuildError::UnmetDependency);
        }
        Ok(self.build())
    }
}

impl<T: ContentType> ScannerBuilder<T, NoMetadata> {
    /// An empty builder whose findings carry no metadata; the maximum depth
    /// is 8 and findings are kept.
    pub fn new() -> (r: Self)
        ensures
            r.wf(),
            r.spec_hashes().len() == 0,
            r.spec_info().len() == 0,
            r.spec_identifiers().len() == 0,
            r.spec_extractor_types().len() == 0,
            r.spec_max_depth() == 8,
            r.spec_store_findings(),
            !r.spec_has_filter(),
    {
        Self::empty()
    }

    /// An empty builder whose findings carry metadata of type `M`.
    pub fn with_metadata<M: FindingMetadata>() -> (r: ScannerBuilder<T, M>)
        ensures
            r.wf(),
            r.spec_hashes().len() == 0,
            r.spec_info().len() == 0,
            r.spec_identifiers().len() == 0,
            r.spec_extractor_types().len() == 0,
            r.spec_max_depth() == 8,
            r.spec_store_findings(),
            !r.spec_has_filter(),
    {
        ScannerBuilder::<T, M>::empty()
    }
}

impl<T: ContentType, M: FindingMetadata> ScannerBuilder<T, M> {
    /// The pattern family `family` of the identifiers fits a matcher (and,
    /// for magic patterns, each is at most 16 bytes).
    fn check_family(&self, family: u8) -> (r: bool)
        requires
            family < 3,
        ensures
            r == (family_fits(family as int, self.spec_identifiers())
                && (family == 0 ==> magics_short(self.spec_identifiers()))),
    {
        let ghost ids = self.spec_identifiers();
        let mut mb: MatcherBuilder<T> = MatcherBuilder::new();
        let mut i: usize = 0;
        assert(ids.len() == self.identifiers@.len());
        assert(ids.take(0) =~= Seq::<(T, Option<IdentifyMethod>)>::empty());
        while i < self.identifiers.len()
            invariant
                ids == self.spec_identifiers(),
                ids.len() == self.identifiers@.len(),
                family < 3,
                i <= ids.len(),
                mb@ == all_patterns(family as int, ids.take(i as int)),
            decreases ids.len() - i,
        {
            proof {
                assert(ids[i as int] == (self.identifiers@[i as int].0, self.identifiers@[i as int].2));
                assert(ids.take(i + 1).drop_last() == ids.take(i as int));
            }
            add_family_patterns(&mut mb, family, self.identifiers[i].0, &self.identifiers[i].2);
            i = i + 1;
        }
        proof {
            assert(ids.take(i as int) == ids);
        }
        let short = family != 0 || mb.all_at_most(16);
        short && mb.try_build().is_some()
    }

    /// Every identifier's patterns fit their matchers and every magic
    /// pattern is at most 16 bytes.
    pub fn check_patterns(&self) -> (r: bool)
        ensures
            r == identifiers_buildable(self.spec_identifiers()),
    {
        self.check_family(0) && self.check_family(1) && self.check_family(2)
    }
}

impl<T: ContentType, M: FindingMetadata> Default for ScannerBuilder<T, M> {
    /// An empty builder: maximum depth 8, findings kept, no filter.
    fn default() -> (r: Self)
        ensures
            r.wf(),
            r.spec_hashes().len() == 0,
            r.spec_info().len() == 0,
            r.spec_identifiers().len() == 0,
            r.spec_extractor_types().len() == 0,
            r.spec_max_depth() == 8,
            r.spec_store_findings(),
            !r.spec_has_filter(),
    {
        Self::empty()
    }
}

} // verus!
