use content_scan::{
    BufferContent, Content, ContentAnalyzer, ContentExtractor, ContentType, Context, Dependencies, Entry,
    ExtractionContext, ExtractionSession, NextAction, NoMetadata, ScanContentHandle, ScanResult, ScannerBuilder,
};
use varmap::Key;

fn var(name: &str) -> Key {
    let mut hash: u64 = 0xcbf29ce484222325;
    for b in name.bytes() {
        hash ^= b as u64;
        hash = hash.wrapping_mul(0x100000000001b3);
    }
    Key::new(hash)
}

#[derive(Debug, Copy, Clone, Eq, PartialEq, Ord, PartialOrd)]
enum Ty {
    Leaf,
    Nest,
}

impl ContentType for Ty {
    const COUNT: u16 = 2;

    fn id(&self) -> u16 {
        self.as_u16()
    }

    fn lemma_id_unique(_a: Self, _b: Self) {}

    fn as_u16(&self) -> u16 {
        *self as u16
    }

    fn from_u16(value: u16) -> Option<Self> {
        match value {
            0 => Some(Ty::Leaf),
            1 => Some(Ty::Nest),
            _ => None,
        }
    }
}

struct TagAnalyzer(u32);
impl Dependencies for TagAnalyzer {
    fn name(&self) -> &'static str {
        "TagAnalyzer"
    }
    fn dependencies(&self) -> &'static [&'static str] {
        &[]
    }
}
impl ContentAnalyzer<Ty, NoMetadata> for TagAnalyzer {
    fn analyze(&mut self, _: &mut Box<dyn Content<Ty>>, context: &mut Context<Ty, NoMetadata>) -> NextAction {
        context.local().set(var("tag"), self.0);
        NextAction::Continue
    }
}

struct SkipAfterLocal;
impl Dependencies for SkipAfterLocal {
    fn name(&self) -> &'static str {
        "SkipAfterLocal"
    }
    fn dependencies(&self) -> &'static [&'static str] {
        &[]
    }
}
impl ContentAnalyzer<Ty, NoMetadata> for SkipAfterLocal {
    fn analyze(&mut self, _: &mut Box<dyn Content<Ty>>, context: &mut Context<Ty, NoMetadata>) -> NextAction {
        context.local().set(var("tag"), 99u32);
        NextAction::Skip
    }
}

struct OneChildExtractor;

struct OneChildSession {
    entry: Entry,
    done: bool,
}

impl ContentExtractor<Ty> for OneChildExtractor {
    fn create_session(&mut self, _: &mut Box<dyn Content<Ty>>, _: &ExtractionContext) -> Option<Box<dyn ExtractionSession<Ty>>> {
        Some(Box::new(OneChildSession { entry: Entry::default(), done: false }))
    }
}

impl ExtractionSession<Ty> for OneChildSession {
    fn advance(&mut self, _: &mut Box<dyn Content<Ty>>) -> Option<&Entry> {
        if self.done {
            return None;
        }
        self.done = true;
        self.entry.path.set_from_str("child");
        self.entry.size = 1;
        self.entry.skip_from_filtering = false;
        Some(&self.entry)
    }
    fn extract(&mut self, _: &mut Box<dyn Content<Ty>>) -> Option<Box<dyn Content<Ty>>> {
        Some(Box::new(BufferContent::<Ty>::with_content_type(b"x", "child", Ty::Leaf)))
    }
}

fn tag(res: &ScanResult<Ty, NoMetadata>, handle: ScanContentHandle) -> Option<u32> {
    res.local(handle).and_then(|vm| vm.get::<u32>(var("tag")))
}

fn root_content(ty: Ty) -> Box<dyn Content<Ty>> {
    Box::new(BufferContent::<Ty>::with_content_type(b"x", "root", ty))
}

#[test]
fn local_map_is_visible_on_the_result_tree() {
    let mut scanner = ScannerBuilder::new().add_analyzer(Ty::Leaf, 0, TagAnalyzer(1)).build();
    let mut content = root_content(Ty::Leaf);
    let res = scanner.scan(&mut content, true);
    let root = res.root().unwrap();
    assert_eq!(tag(&res, root), Some(1));
}

#[test]
fn object_that_never_calls_local_has_no_map() {
    let mut scanner = ScannerBuilder::<Ty, NoMetadata>::new().build();
    let mut content = root_content(Ty::Leaf);
    let res = scanner.scan(&mut content, true);
    let root = res.root().unwrap();
    assert!(res.local(root).is_none());
}

#[test]
fn parent_and_child_keep_distinct_maps() {
    let mut scanner = ScannerBuilder::new()
        .add_analyzer(Ty::Nest, 0, TagAnalyzer(1))
        .add_analyzer(Ty::Leaf, 0, TagAnalyzer(2))
        .add_extractor(Ty::Nest, OneChildExtractor)
        .build();
    let mut content = root_content(Ty::Nest);
    let res = scanner.scan(&mut content, true);
    let root = res.root().unwrap();
    let child = res.child(root).unwrap();
    assert_eq!(tag(&res, root), Some(1));
    assert_eq!(tag(&res, child), Some(2));
    assert!(!std::ptr::eq(res.local(root).unwrap(), res.local(child).unwrap()));
}

#[test]
fn skip_after_local_still_keeps_the_map() {
    let mut scanner = ScannerBuilder::new().add_analyzer(Ty::Leaf, 0, SkipAfterLocal).build();
    let mut content = root_content(Ty::Leaf);
    let res = scanner.scan(&mut content, true);
    let root = res.root().unwrap();
    assert_eq!(tag(&res, root), Some(99));
}

#[test]
fn global_map_is_shared_by_all_objects() {
    struct CountObjects;
    impl Dependencies for CountObjects {
        fn name(&self) -> &'static str {
            "CountObjects"
        }
        fn dependencies(&self) -> &'static [&'static str] {
            &[]
        }
    }
    impl ContentAnalyzer<Ty, NoMetadata> for CountObjects {
        fn analyze(&mut self, _: &mut Box<dyn Content<Ty>>, context: &mut Context<Ty, NoMetadata>) -> NextAction {
            let seen = context.global().get::<u32>(var("seen")).unwrap_or(0);
            context.global().set(var("seen"), seen + 1);
            NextAction::Continue
        }
    }
    let mut scanner = ScannerBuilder::new()
        .add_generic_analyzer(0, CountObjects)
        .add_extractor(Ty::Nest, OneChildExtractor)
        .build();
    let mut content = root_content(Ty::Nest);
    let res = scanner.scan(&mut content, true);
    assert_eq!(res.objects_scanned(), 2);
    assert_eq!(res.global().get::<u32>(var("seen")), Some(2));
}
