use content_scan::implementations::folder_content::{folder_entry_decision, DirEntryDecision, DirEntryInfo, LinkTarget};
use content_scan::{
    ArenaIndex, BufferArena, BufferContent, BuildError, Content, ContentAnalyzer, ContentExtractor, ContentPath, ContentType,
    Context, Dependencies, Entry, ExtractionContext, ExtractionPool, ExtractionSession, FilterBuilder, FolderContent,
    MatcherBuilder, NextAction, NoMetadata, PathPredicate, Precedence, ScannerBuilder, ScanObserver, StopCondition,
};

#[derive(Debug, Copy, Clone, Eq, PartialEq, Ord, PartialOrd)]
enum Ty {
    Box_,
    Leaf,
}

impl ContentType for Ty {
    const COUNT: u16 = 2;

    fn id(&self) -> u16 {
        self.as_u16()
    }

    fn lemma_id_unique(_a: Self, _b: Self) {}

    fn as_u16(&self) -> u16 {
        *self as u16
    }

    fn from_u16(value: u16) -> Option<Self> {
        match value {
            0 => Some(Ty::Box_),
            1 => Some(Ty::Leaf),
            _ => None,
        }
    }
}

/// Emits the children named in `names`, each of one byte, typed `Leaf`.
struct Children(&'static [&'static str]);

struct ChildrenSession {
    names: &'static [&'static str],
    next: usize,
    entry: Entry,
}

impl ContentExtractor<Ty> for Children {
    fn create_session(&mut self, _: &mut Box<dyn Content<Ty>>, _: &ExtractionContext) -> Option<Box<dyn ExtractionSession<Ty>>> {
        Some(Box::new(ChildrenSession { names: self.0, next: 0, entry: Entry::default() }))
    }
}

impl ExtractionSession<Ty> for ChildrenSession {
    fn advance(&mut self, _: &mut Box<dyn Content<Ty>>) -> Option<&Entry> {
        let name = self.names.get(self.next)?;
        self.next += 1;
        self.entry.path.set_from_str(name);
        self.entry.size = 1;
        self.entry.skip_from_filtering = false;
        Some(&self.entry)
    }
    fn extract(&mut self, _: &mut Box<dyn Content<Ty>>) -> Option<Box<dyn Content<Ty>>> {
        let name = self.names[self.next - 1];
        Some(Box::new(BufferContent::<Ty>::with_content_type(b"x", name, Ty::Leaf)))
    }
}

/// Records one finding per object and answers `action`.
struct Report(NextAction);
impl Dependencies for Report {
    fn name(&self) -> &'static str {
        "Report"
    }
    fn dependencies(&self) -> &'static [&'static str] {
        &[]
    }
}
impl ContentAnalyzer<Ty, NoMetadata> for Report {
    fn analyze(&mut self, content: &mut Box<dyn Content<Ty>>, context: &mut Context<Ty, NoMetadata>) -> NextAction {
        let text = format!("seen {}", content.path().as_printable_string());
        context.add_finding(&text, Some("report"), None);
        self.0
    }
}

fn boxed(path: &str, ty: Ty) -> Box<dyn Content<Ty>> {
    Box::new(BufferContent::<Ty>::with_content_type(b"root", path, ty))
}

#[test]
fn findings_are_recorded_in_scan_order_with_their_object() {
    let mut scanner = ScannerBuilder::new()
        .add_generic_analyzer(0, Report(NextAction::Continue))
        .add_extractor(Ty::Box_, Children(&["a", "b"]))
        .build();
    let mut content = boxed("root", Ty::Box_);
    let res = scanner.scan(&mut content, true);
    assert_eq!(res.objects_scanned(), 3);
    assert_eq!(res.findings_count(), 3);
    let mut it = res.findings();
    let mut seen = Vec::new();
    while let Some(f) = it.next() {
        assert_eq!(f.source(), Some("report"));
        seen.push((f.object().index, f.text().unwrap().to_string()));
    }
    assert_eq!(seen, vec![(0, "seen root".to_string()), (1, "seen a".to_string()), (2, "seen b".to_string())]);
    assert!(res.finding(3).is_none());
}

#[test]
fn findings_are_dropped_when_not_stored() {
    let mut scanner = ScannerBuilder::new()
        .store_findings(false)
        .add_generic_analyzer(0, Report(NextAction::Continue))
        .build();
    let mut content = boxed("root", Ty::Leaf);
    let res = scanner.scan(&mut content, true);
    assert_eq!(res.objects_scanned(), 1);
    assert_eq!(res.findings_count(), 0);
}

#[test]
fn skip_keeps_the_object_but_runs_no_extractor() {
    let mut scanner = ScannerBuilder::new()
        .add_analyzer(Ty::Box_, 0, Report(NextAction::Skip))
        .add_extractor(Ty::Box_, Children(&["a", "b"]))
        .build();
    let mut content = boxed("root", Ty::Box_);
    let res = scanner.scan(&mut content, true);
    assert_eq!(res.objects_scanned(), 1);
    assert!(res.child(res.root().unwrap()).is_none());
}

#[test]
fn exit_stops_the_whole_scan() {
    let mut scanner = ScannerBuilder::new()
        .add_analyzer(Ty::Leaf, 0, Report(NextAction::Exit))
        .add_extractor(Ty::Box_, Children(&["a", "b", "c"]))
        .build();
    let mut content = boxed("root", Ty::Box_);
    let res = scanner.scan(&mut content, true);
    // The root and its first child are scanned; the child's analyzer ends the scan.
    assert_eq!(res.objects_scanned(), 2);
}

struct LongerThan(u64);
impl PathPredicate for LongerThan {
    fn test(&self, _: &ContentPath, size: u64) -> bool {
        size > self.0
    }
}

#[test]
fn the_filter_applies_to_children_and_optionally_to_the_root() {
    let filter = FilterBuilder::new().exclude_file_names(Precedence::Medium, &["b"]).allow_the_rest().build();
    let mut scanner = ScannerBuilder::new().filter(filter).add_extractor(Ty::Box_, Children(&["a", "b", "c"])).build();
    let mut content = boxed("root", Ty::Box_);
    let res = scanner.scan(&mut content, true);
    let root = res.root().unwrap();
    let first = res.child(root).unwrap();
    let second = res.next_sibling(first).unwrap();
    assert_eq!(res.path(first), Some("a"));
    assert_eq!(res.path(second), Some("c"));
    assert!(res.next_sibling(second).is_none());

    let deny_all = FilterBuilder::new().deny_the_rest().build();
    let mut strict = ScannerBuilder::new().filter(deny_all).build();
    let mut content = boxed("root", Ty::Box_);
    assert_eq!(strict.scan(&mut content, true).objects_scanned(), 0);
    let mut content = boxed("root", Ty::Box_);
    assert_eq!(strict.scan(&mut content, false).objects_scanned(), 1);
}

#[test]
fn custom_filter_tests_decide_in_precedence_order() {
    let mut filter = FilterBuilder::new()
        .include_when(Precedence::Low, LongerThan(0))
        .exclude(Precedence::High, LongerThan(10))
        .deny_the_rest()
        .build();
    let p = ContentPath::from_str("data.bin");
    assert!(!filter.should_process(&p, 0));
    assert!(filter.should_process(&p, 5));
    assert!(!filter.should_process(&p, 50));
}

#[test]
fn precedence_ranks_are_ordered() {
    let ranks: Vec<u8> = [Precedence::Lowest, Precedence::Low, Precedence::Medium, Precedence::High, Precedence::Highest]
        .iter()
        .map(|p| p.rank())
        .collect();
    assert_eq!(ranks, vec![0, 1, 2, 3, 4]);
}

#[test]
fn a_folder_has_no_bytes_and_keeps_its_type() {
    let mut f: Box<dyn Content<Ty>> = Box::new(FolderContent::with_content_type(ContentPath::from_str("/tmp"), Ty::Box_));
    assert_eq!(f.size(), 0);
    assert!(f.read(0, 10).is_none());
    assert_eq!(f.content_type(), Some(Ty::Box_));
    assert_eq!(f.path().as_printable_string(), "/tmp");
}

#[test]
fn folder_walk_decisions() {
    let file = DirEntryInfo { is_dir: false, link: None, len: Some(12) };
    assert_eq!(folder_entry_decision(file, false), Some(DirEntryDecision { is_folder: false, size: 12, skip_from_filtering: false }));
    let unknown_len = DirEntryInfo { is_dir: false, link: None, len: None };
    assert_eq!(folder_entry_decision(unknown_len, true).unwrap().size, 0);
    let dir = DirEntryInfo { is_dir: true, link: None, len: Some(4096) };
    assert_eq!(folder_entry_decision(dir, false), None);
    assert_eq!(folder_entry_decision(dir, true), Some(DirEntryDecision { is_folder: true, size: 0, skip_from_filtering: true }));
    let to_dir = DirEntryInfo { is_dir: false, link: Some(LinkTarget::Folder), len: None };
    assert_eq!(folder_entry_decision(to_dir, true), None);
    let dangling = DirEntryInfo { is_dir: false, link: Some(LinkTarget::Missing), len: None };
    assert_eq!(folder_entry_decision(dangling, true), None);
    let to_file = DirEntryInfo { is_dir: false, link: Some(LinkTarget::File(77)), len: Some(9) };
    assert_eq!(folder_entry_decision(to_file, false), Some(DirEntryDecision { is_folder: false, size: 77, skip_from_filtering: false }));
}

#[test]
fn arena_gives_back_what_was_stored() {
    let mut arena = BufferArena::new();
    let a = arena.allocate(b"hello");
    let b = arena.allocate(b"");
    let c = arena.allocate(b"world!");
    assert_eq!(a, ArenaIndex { pos: 0, size: 5 });
    assert_eq!(c, ArenaIndex { pos: 5, size: 6 });
    assert_eq!(arena.get(a), Some(&b"hello"[..]));
    assert_eq!(arena.get(b), Some(&b""[..]));
    assert_eq!(arena.get(c), Some(&b"world!"[..]));
    assert_eq!(arena.get(ArenaIndex::invalid()), None);
    assert_eq!(arena.get(ArenaIndex { pos: 9, size: 3 }), None);
    arena.clear();
    assert_eq!(arena.get(a), None);
}

#[test]
fn pool_handles_go_stale_when_their_slot_is_reused() {
    let mut pool: ExtractionPool<&str> = ExtractionPool::new(2);
    let a = pool.acquire_slot("a");
    let b = pool.acquire_slot("b");
    assert_eq!(pool.get(a), Some(&"a"));
    assert_eq!(pool.get(b), Some(&"b"));
    pool.release_slot(a);
    assert_eq!(pool.get(a), None);
    let c = pool.acquire_slot("c");
    assert_eq!(c.index(), a.index());
    assert_ne!(c.uid(), a.uid());
    assert_eq!(pool.get(a), None);
    assert_eq!(pool.get(c), Some(&"c"));
    if let Some(v) = pool.get_mut(b) {
        *v = "bb";
    }
    assert_eq!(pool.get(b), Some(&"bb"));
    pool.release_slot(a);
    assert_eq!(pool.get(c), Some(&"c"));
}

#[test]
fn matcher_builder_picks_a_matcher_that_agrees_with_the_patterns() {
    let empty = MatcherBuilder::<Ty>::new().build();
    assert_eq!(empty.starts_with(b"abc"), None);

    let mut one = MatcherBuilder::new();
    one.add(Ty::Leaf, b"%PDF");
    let one = one.build();
    assert_eq!(one.starts_with(b"%PDF-1.4"), Some(Ty::Leaf));
    assert_eq!(one.matches_exactly(b"%PDF-1.4"), None);

    let mut magic = MatcherBuilder::new();
    magic.add(Ty::Leaf, b"PK");
    magic.add(Ty::Box_, b"PK\x03\x04");
    let magic = magic.build();
    assert_eq!(magic.starts_with(b"PK\x03\x04rest"), Some(Ty::Box_));
    assert_eq!(magic.starts_with(b"PKzz"), Some(Ty::Leaf));

    let mut long = MatcherBuilder::new();
    long.add(Ty::Leaf, b"0123456789");
    long.add(Ty::Box_, b"01");
    let long = long.build();
    assert_eq!(long.starts_with(b"0123456789AB"), Some(Ty::Leaf));
    assert_eq!(long.starts_with(b"0199"), Some(Ty::Box_));
    assert_eq!(long.matches_exactly(b"01"), Some(Ty::Box_));
    assert_eq!(long.matches_exactly(b""), None);
}

struct Named(&'static str, &'static [&'static str]);
impl Dependencies for Named {
    fn name(&self) -> &'static str {
        self.0
    }
    fn dependencies(&self) -> &'static [&'static str] {
        self.1
    }
}
impl ContentAnalyzer<Ty, NoMetadata> for Named {
    fn analyze(&mut self, _: &mut Box<dyn Content<Ty>>, _: &mut Context<Ty, NoMetadata>) -> NextAction {
        NextAction::Continue
    }
}

#[test]
fn builder_checks_dependencies_and_identifier_uniqueness() {
    let ok = ScannerBuilder::<Ty, NoMetadata>::new()
        .add_analyzer(Ty::Leaf, 1, Named("base", &[]))
        .add_generic_analyzer(2, Named("user", &["base"]));
    assert!(ok.check_dependencies());
    let same_priority = ScannerBuilder::<Ty, NoMetadata>::new()
        .add_analyzer(Ty::Leaf, 2, Named("base", &[]))
        .add_analyzer(Ty::Leaf, 2, Named("user", &["base"]));
    assert!(!same_priority.check_dependencies());
    let missing = ScannerBuilder::<Ty, NoMetadata>::new().add_analyzer(Ty::Leaf, 2, Named("user", &["nobody"]));
    assert!(!missing.check_dependencies());
    assert_eq!(missing.try_build().err(), Some(BuildError::UnmetDependency));
    assert!(ok.try_build().is_ok());
}

#[test]
fn bool_is_a_content_type_with_two_ids() {
    assert_eq!(<bool as ContentType>::COUNT, 2);
    assert_eq!(false.as_u16(), 0);
    assert_eq!(true.as_u16(), 1);
    assert_eq!(<bool as ContentType>::from_u16(1), Some(true));
    assert_eq!(<bool as ContentType>::from_u16(0), Some(false));
    assert_eq!(<bool as ContentType>::from_u16(2), None);
}

/// Lets `n` objects be scanned, then stops.
struct StopAfter(u32);
impl StopCondition for StopAfter {
    fn should_stop(&mut self) -> bool {
        if self.0 == 0 {
            true
        } else {
            self.0 -= 1;
            false
        }
    }
}

#[test]
fn stop_condition_ends_the_scan_early() {
    let mut scanner = ScannerBuilder::new()
        .add_extractor(Ty::Box_, Children(&["a", "b", "c"]))
        .stop_condition(StopAfter(2))
        .build();
    let mut content: Box<dyn Content<Ty>> = Box::new(BufferContent::<Ty>::with_content_type(b"r", "root", Ty::Box_));
    let res = scanner.scan(&mut content, false);
    assert_eq!(res.objects_scanned(), 2);
}

#[test]
fn stop_condition_asked_first_gives_an_empty_result() {
    let mut scanner = ScannerBuilder::new()
        .add_extractor(Ty::Box_, Children(&["a"]))
        .stop_condition(StopAfter(0))
        .build();
    let mut content: Box<dyn Content<Ty>> = Box::new(BufferContent::<Ty>::with_content_type(b"r", "root", Ty::Box_));
    let res = scanner.scan(&mut content, false);
    assert_eq!(res.objects_scanned(), 0);
}

/// Records the events it is told of.
struct Log(std::rc::Rc<std::cell::RefCell<Vec<String>>>);
impl ScanObserver<Ty, NoMetadata> for Log {
    fn on_begin(&mut self, root: &str) {
        self.0.borrow_mut().push(format!("begin {root}"));
    }
    fn on_scan_object(&mut self, path: &str, ty: Option<Ty>) {
        self.0.borrow_mut().push(format!("scan {path} {ty:?}"));
    }
    fn on_extraction(&mut self, parent: &str, entry: &Entry) {
        self.0.borrow_mut().push(format!("extract {} from {parent}", entry.path.as_printable_string()));
    }
    fn on_finding(&mut self, path: &str, finding: &str, _source: Option<&str>, _metadata: Option<&NoMetadata>) {
        self.0.borrow_mut().push(format!("finding {path} {finding}"));
    }
    fn on_end(&mut self) {
        self.0.borrow_mut().push("end".to_string());
    }
}

#[test]
fn observer_sees_the_scan_in_order() {
    let log = std::rc::Rc::new(std::cell::RefCell::new(Vec::new()));
    let mut scanner = ScannerBuilder::new()
        .add_generic_analyzer(0, Report(NextAction::Continue))
        .add_extractor(Ty::Box_, Children(&["a"]))
        .store_findings(false)
        .observer(Log(log.clone()))
        .build();
    let mut content = boxed("root", Ty::Box_);
    let res = scanner.scan(&mut content, true);
    assert_eq!(res.objects_scanned(), 2);
    assert_eq!(res.findings_count(), 0);
    let events = log.borrow().clone();
    assert_eq!(
        events,
        vec![
            "begin root".to_string(),
            "scan root Some(Box_)".to_string(),
            "finding root seen root".to_string(),
            "extract a from root".to_string(),
            "scan a Some(Leaf)".to_string(),
            "finding a seen a".to_string(),
            "end".to_string(),
        ]
    );
}
