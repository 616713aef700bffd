use content_scan::{
    BufferContent, Content, ContentExtractor, ContentType, Entry, ExtractionContext, ExtractionSession,
    ScannerBuilder,
};

#[derive(Debug, Copy, Clone, Eq, PartialEq, Ord, PartialOrd)]
enum Ty {
    Nest,
}

impl ContentType for Ty {
    const COUNT: u16 = 1;

    fn id(&self) -> u16 {
        self.as_u16()
    }

    fn lemma_id_unique(_a: Self, _b: Self) {}

    fn as_u16(&self) -> u16 {
        *self as u16
    }

    fn from_u16(value: u16) -> Option<Self> {
        match value {
            0 => Some(Ty::Nest),
            _ => None,
        }
    }
}

/// Emits one smaller child so scans form a single chain of nested objects.
struct NestExtractor;

struct NestSession {
    entry: Entry,
    done: bool,
}

impl ContentExtractor<Ty> for NestExtractor {
    fn create_session(
        &mut self,
        content: &mut Box<dyn Content<Ty>>,
        _: &ExtractionContext,
    ) -> Option<Box<dyn ExtractionSession<Ty>>> {
        if content.size() == 0 {
            return None;
        }
        Some(Box::new(NestSession { entry: Entry::default(), done: false }))
    }
}

impl ExtractionSession<Ty> for NestSession {
    fn advance(&mut self, content: &mut Box<dyn Content<Ty>>) -> Option<&Entry> {
        if self.done {
            return None;
        }
        self.done = true;
        self.entry.path.set_from_str("child");
        self.entry.size = content.size().saturating_sub(1);
        self.entry.skip_from_filtering = false;
        Some(&self.entry)
    }

    fn extract(&mut self, content: &mut Box<dyn Content<Ty>>) -> Option<Box<dyn Content<Ty>>> {
        let n = content.size().saturating_sub(1) as usize;
        Some(Box::new(BufferContent::<Ty>::with_content_type(&vec![0u8; n], "child", Ty::Nest)))
    }
}

fn scanned(max_depth: u32) -> u32 {
    let mut scanner = ScannerBuilder::new().max_depth(max_depth).add_extractor(Ty::Nest, NestExtractor).build();
    let mut content: Box<dyn Content<Ty>> = Box::new(BufferContent::<Ty>::with_content_type(&[0u8; 16], "root", Ty::Nest));
    scanner.scan(&mut content, true).objects_scanned()
}

#[test]
fn max_depth_one_scans_only_the_root() {
    assert_eq!(scanned(1), 1);
}

#[test]
fn max_depth_three_scans_three_objects() {
    assert_eq!(scanned(3), 3);
}

#[test]
fn max_depth_does_not_scan_an_extra_level() {
    assert_eq!(scanned(8), 8);
}

#[test]
fn max_depth_zero_is_raised_to_one() {
    assert_eq!(scanned(0), 1);
}

#[test]
fn chain_ends_when_the_content_runs_out() {
    // 16 bytes give a chain of 17 objects (16 down to 0); the empty one
    // opens no session.
    assert_eq!(scanned(100), 17);
}

#[test]
fn every_object_of_the_chain_is_the_only_child_of_its_parent() {
    let mut scanner = ScannerBuilder::new().max_depth(4).add_extractor(Ty::Nest, NestExtractor).build();
    let mut content: Box<dyn Content<Ty>> = Box::new(BufferContent::<Ty>::with_content_type(&[0u8; 16], "root", Ty::Nest));
    let res = scanner.scan(&mut content, true);
    let mut h = res.root().unwrap();
    assert_eq!(res.path(h), Some("root"));
    assert!(res.parent(h).is_none());
    let mut depth = 1;
    while let Some(c) = res.child(h) {
        assert_eq!(res.parent(c).map(|p| p.index), Some(h.index));
        assert!(res.next_sibling(c).is_none());
        assert_eq!(res.path(c), Some("child"));
        assert_eq!(res.content_type(c), Some(Ty::Nest));
        h = c;
        depth += 1;
    }
    assert_eq!(depth, 4);
}
