use content_scan::{
    BufferContent, BuildError, Content, ContentIdentifier, ContentType, IdentifyMethod, NoMetadata, Scanner, ScannerBuilder,
};

#[derive(Debug, Copy, Clone, Eq, PartialEq, Ord, PartialOrd)]
enum Ty {
    Tagged,
    Custom,
    Fallback,
    ByExt,
    ByName,
}

impl ContentType for Ty {
    const COUNT: u16 = 5;

    fn id(&self) -> u16 {
        self.as_u16()
    }

    fn lemma_id_unique(_a: Self, _b: Self) {}

    fn as_u16(&self) -> u16 {
        *self as u16
    }

    fn from_u16(value: u16) -> Option<Self> {
        match value {
            0 => Some(Ty::Tagged),
            1 => Some(Ty::Custom),
            2 => Some(Ty::Fallback),
            3 => Some(Ty::ByExt),
            4 => Some(Ty::ByName),
            _ => None,
        }
    }
}

struct TaggedId;
impl ContentIdentifier<Ty> for TaggedId {
    fn identify_method(&self) -> Option<IdentifyMethod> {
        Some(IdentifyMethod::Magic(b"TAG"))
    }
    fn validate(&self, _: &mut Box<dyn Content<Ty>>) -> bool {
        true
    }
}

struct TaggedButRejectsId;
impl ContentIdentifier<Ty> for TaggedButRejectsId {
    fn identify_method(&self) -> Option<IdentifyMethod> {
        Some(IdentifyMethod::Magic(b"TAG"))
    }
    fn validate(&self, _: &mut Box<dyn Content<Ty>>) -> bool {
        false
    }
}

/// Example: no `IdentifyMethod` — decide from the path in `validate`.
struct CustomPathId;
impl ContentIdentifier<Ty> for CustomPathId {
    fn identify_method(&self) -> Option<IdentifyMethod> {
        None
    }
    fn validate(&self, content: &mut Box<dyn Content<Ty>>) -> bool {
        content.path().as_printable_string().ends_with(".custom")
    }
}

/// Example: catch-all custom identifier (any non-empty payload).
struct NonEmptyId;
impl ContentIdentifier<Ty> for NonEmptyId {
    fn identify_method(&self) -> Option<IdentifyMethod> {
        None
    }
    fn validate(&self, content: &mut Box<dyn Content<Ty>>) -> bool {
        content.size() > 0
    }
}

/// Custom identifier that inspects payload bytes past the 16-byte magic window.
struct PastMagicWindowId;
impl ContentIdentifier<Ty> for PastMagicWindowId {
    fn identify_method(&self) -> Option<IdentifyMethod> {
        None
    }
    fn validate(&self, content: &mut Box<dyn Content<Ty>>) -> bool {
        matches!(content.read(16, 4), Some(b) if b == b"MARK")
    }
}

struct ExtId;
impl ContentIdentifier<Ty> for ExtId {
    fn identify_method(&self) -> Option<IdentifyMethod> {
        Some(IdentifyMethod::Extension("txt"))
    }
    fn validate(&self, _: &mut Box<dyn Content<Ty>>) -> bool {
        true
    }
}

struct MixedCaseExtId;
impl ContentIdentifier<Ty> for MixedCaseExtId {
    fn identify_method(&self) -> Option<IdentifyMethod> {
        Some(IdentifyMethod::Extension("TXT"))
    }
    fn validate(&self, _: &mut Box<dyn Content<Ty>>) -> bool {
        true
    }
}

struct ExtsId;
impl ContentIdentifier<Ty> for ExtsId {
    fn identify_method(&self) -> Option<IdentifyMethod> {
        Some(IdentifyMethod::Extensions(&["jpg", "Jpeg"]))
    }
    fn validate(&self, _: &mut Box<dyn Content<Ty>>) -> bool {
        true
    }
}

struct NameId;
impl ContentIdentifier<Ty> for NameId {
    fn identify_method(&self) -> Option<IdentifyMethod> {
        Some(IdentifyMethod::Name("Makefile"))
    }
    fn validate(&self, _: &mut Box<dyn Content<Ty>>) -> bool {
        true
    }
}

struct NamesId;
impl ContentIdentifier<Ty> for NamesId {
    fn identify_method(&self) -> Option<IdentifyMethod> {
        Some(IdentifyMethod::Names(&["Cargo.lock"]))
    }
    fn validate(&self, _: &mut Box<dyn Content<Ty>>) -> bool {
        true
    }
}

struct Exact16MagicId;
impl ContentIdentifier<Ty> for Exact16MagicId {
    fn identify_method(&self) -> Option<IdentifyMethod> {
        Some(IdentifyMethod::Magic(b"0123456789ABCDEF"))
    }
    fn validate(&self, _: &mut Box<dyn Content<Ty>>) -> bool {
        true
    }
}

struct TooLongMagicId;
impl ContentIdentifier<Ty> for TooLongMagicId {
    fn identify_method(&self) -> Option<IdentifyMethod> {
        Some(IdentifyMethod::Magic(b"0123456789ABCDEF!"))
    }
    fn validate(&self, _: &mut Box<dyn Content<Ty>>) -> bool {
        true
    }
}

struct TooLongMultipleMagicId;
impl ContentIdentifier<Ty> for TooLongMultipleMagicId {
    fn identify_method(&self) -> Option<IdentifyMethod> {
        Some(IdentifyMethod::MultipleMagic(&[b"OK", b"0123456789ABCDEF!"]))
    }
    fn validate(&self, _: &mut Box<dyn Content<Ty>>) -> bool {
        true
    }
}

fn identified_type(scanner: &mut Scanner<Ty, NoMetadata>, buf: &[u8], path: &str) -> Option<Ty> {
    let mut content: Box<dyn Content<Ty>> = Box::new(BufferContent::<Ty>::new(buf, path));
    let res = scanner.scan(&mut content, true);
    res.root().and_then(|h| res.content_type(h))
}

#[test]
fn custom_identifier_classifies_when_identify_method_is_none() {
    let mut scanner = ScannerBuilder::new().add_identifier(Ty::Custom, CustomPathId).build();
    assert_eq!(identified_type(&mut scanner, b"hello", "blob.custom"), Some(Ty::Custom));
    assert_eq!(identified_type(&mut scanner, b"hello", "blob.bin"), None);
}

#[test]
fn custom_identifier_runs_after_magic_validate_rejects() {
    let mut scanner = ScannerBuilder::new()
        .add_identifier(Ty::Tagged, TaggedButRejectsId)
        .add_identifier(Ty::Custom, CustomPathId)
        .build();
    assert_eq!(identified_type(&mut scanner, b"TAG payload", "blob.custom"), Some(Ty::Custom));
}

#[test]
fn magic_match_still_wins_over_custom_identifier() {
    let mut scanner = ScannerBuilder::new()
        .add_identifier(Ty::Custom, CustomPathId)
        .add_identifier(Ty::Tagged, TaggedId)
        .build();
    assert_eq!(identified_type(&mut scanner, b"TAG payload", "blob.custom"), Some(Ty::Tagged));
}

#[test]
fn custom_identifiers_are_tried_in_registration_order() {
    let mut scanner = ScannerBuilder::new()
        .add_identifier(Ty::Custom, CustomPathId)
        .add_identifier(Ty::Fallback, NonEmptyId)
        .build();
    assert_eq!(identified_type(&mut scanner, b"hello", "blob.custom"), Some(Ty::Custom));
    assert_eq!(identified_type(&mut scanner, b"hello", "blob.bin"), Some(Ty::Fallback));
    assert_eq!(identified_type(&mut scanner, b"", "empty.bin"), None);
}

#[test]
fn custom_identifier_can_read_payload_bytes() {
    let mut scanner = ScannerBuilder::new().add_identifier(Ty::Custom, PastMagicWindowId).build();
    let mut matching = [0u8; 20];
    matching[16..20].copy_from_slice(b"MARK");
    assert_eq!(identified_type(&mut scanner, &matching, "blob.bin"), Some(Ty::Custom));
    assert_eq!(identified_type(&mut scanner, &[0u8; 20], "blob.bin"), None);
    assert_eq!(identified_type(&mut scanner, b"short", "blob.bin"), None);
}

#[test]
fn extension_match_is_ascii_case_insensitive() {
    let mut scanner = ScannerBuilder::new().add_identifier(Ty::ByExt, ExtId).build();
    assert_eq!(identified_type(&mut scanner, b"hello", "notes.txt"), Some(Ty::ByExt));
    assert_eq!(identified_type(&mut scanner, b"hello", "Notes.TXT"), Some(Ty::ByExt));
    assert_eq!(identified_type(&mut scanner, b"hello", "notes.Txt"), Some(Ty::ByExt));
    assert_eq!(identified_type(&mut scanner, b"hello", r"C:\docs\report.TXT"), Some(Ty::ByExt));
    assert_eq!(identified_type(&mut scanner, b"hello", "archive.tar.txt"), Some(Ty::ByExt));
    assert_eq!(identified_type(&mut scanner, b"hello", "notes.rs"), None);
}

#[test]
fn mixed_case_registered_extension_still_matches() {
    let mut scanner = ScannerBuilder::new().add_identifier(Ty::ByExt, MixedCaseExtId).build();
    assert_eq!(identified_type(&mut scanner, b"hello", "notes.txt"), Some(Ty::ByExt));
    assert_eq!(identified_type(&mut scanner, b"hello", "NOTES.TXT"), Some(Ty::ByExt));
}

#[test]
fn extensions_list_is_ascii_case_insensitive() {
    let mut scanner = ScannerBuilder::new().add_identifier(Ty::ByExt, ExtsId).build();
    assert_eq!(identified_type(&mut scanner, b"hello", "photo.jpg"), Some(Ty::ByExt));
    assert_eq!(identified_type(&mut scanner, b"hello", "Photo.JPG"), Some(Ty::ByExt));
    assert_eq!(identified_type(&mut scanner, b"hello", "shot.JPEG"), Some(Ty::ByExt));
    assert_eq!(identified_type(&mut scanner, b"hello", "shot.jpeg"), Some(Ty::ByExt));
    assert_eq!(identified_type(&mut scanner, b"hello", "shot.png"), None);
}

#[test]
fn name_match_is_ascii_case_insensitive() {
    let mut scanner = ScannerBuilder::new().add_identifier(Ty::ByName, NameId).build();
    assert_eq!(identified_type(&mut scanner, b"hello", "Makefile"), Some(Ty::ByName));
    assert_eq!(identified_type(&mut scanner, b"hello", "makefile"), Some(Ty::ByName));
    assert_eq!(identified_type(&mut scanner, b"hello", "MAKEFILE"), Some(Ty::ByName));
    assert_eq!(identified_type(&mut scanner, b"hello", "/src/Makefile"), Some(Ty::ByName));
    assert_eq!(identified_type(&mut scanner, b"hello", r"C:\src\makefile"), Some(Ty::ByName));
    assert_eq!(identified_type(&mut scanner, b"hello", "makefile.txt"), None);
    assert_eq!(identified_type(&mut scanner, b"hello", "notes.rs"), None);
}

#[test]
fn names_list_is_ascii_case_insensitive() {
    let mut scanner = ScannerBuilder::new().add_identifier(Ty::ByName, NamesId).build();
    assert_eq!(identified_type(&mut scanner, b"hello", "Cargo.lock"), Some(Ty::ByName));
    assert_eq!(identified_type(&mut scanner, b"hello", "cargo.lock"), Some(Ty::ByName));
    assert_eq!(identified_type(&mut scanner, b"hello", "CARGO.LOCK"), Some(Ty::ByName));
    assert_eq!(identified_type(&mut scanner, b"hello", r"C:\proj\Cargo.lock"), Some(Ty::ByName));
    assert_eq!(identified_type(&mut scanner, b"hello", "Cargo.toml"), None);
}

#[test]
fn magic_of_exactly_16_bytes_still_matches() {
    let mut scanner = ScannerBuilder::new().add_identifier(Ty::Tagged, Exact16MagicId).build();
    assert_eq!(identified_type(&mut scanner, b"0123456789ABCDEF rest", "blob.bin"), Some(Ty::Tagged));
    assert_eq!(identified_type(&mut scanner, b"0123456789ABCDE?", "blob.bin"), None);
}


#[test]
#[should_panic(expected = "at most 16 bytes")]
fn magic_longer_than_16_bytes_panics_at_build() {
    let builder = ScannerBuilder::new().add_identifier(Ty::Tagged, TooLongMagicId);
    assert!(!builder.check_patterns());
    builder.try_build().expect("magic patterns must be at most 16 bytes");
}

#[test]
#[should_panic(expected = "at most 16 bytes")]
fn multiple_magic_item_longer_than_16_bytes_panics_at_build() {
    ScannerBuilder::new()
        .add_identifier(Ty::Tagged, TooLongMultipleMagicId)
        .try_build()
        .expect("magic patterns must be at most 16 bytes");
}

#[test]
fn build_errors_name_the_first_unmet_condition() {
    let dup = ScannerBuilder::new().add_identifier(Ty::ByExt, ExtId).add_identifier(Ty::ByExt, MixedCaseExtId);
    assert_eq!(dup.try_build().err(), Some(BuildError::DuplicateIdentifier));
    let ok = ScannerBuilder::new().add_identifier(Ty::Tagged, Exact16MagicId);
    assert!(ok.check_patterns());
    assert!(ok.try_build().is_ok());
}

struct SixteenByteMagicId;
impl ContentIdentifier<Ty> for SixteenByteMagicId {
    fn identify_method(&self) -> Option<IdentifyMethod> {
        Some(IdentifyMethod::Magic(b"0123456789ABCDEF"))
    }
    fn validate(&self, _: &mut Box<dyn Content<Ty>>) -> bool {
        true
    }
}

#[test]
fn a_magic_of_exactly_sixteen_bytes_identifies_its_content() {
    let mut scanner = ScannerBuilder::new().add_identifier(Ty::Tagged, SixteenByteMagicId).build();
    assert_eq!(identified_type(&mut scanner, b"0123456789ABCDEF and more", "blob"), Some(Ty::Tagged));
    assert_eq!(identified_type(&mut scanner, b"0123456789ABCDEF", "blob"), Some(Ty::Tagged));
    assert_eq!(identified_type(&mut scanner, b"0123456789ABCDE", "blob"), None);
}
