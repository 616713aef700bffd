use content_scan::{ContentType, OneMatcher};

#[derive(Debug, Clone, Copy, PartialEq, Eq)]
enum TestType {
    Pdf,
    Zip,
    Elf,
}

impl ContentType for TestType {
    const COUNT: u16 = 4;

    fn id(&self) -> u16 {
        self.as_u16()
    }

    fn lemma_id_unique(_a: Self, _b: Self) {}

    fn as_u16(&self) -> u16 {
        match self {
            TestType::Pdf => 1,
            TestType::Zip => 2,
            TestType::Elf => 3,
        }
    }

    fn from_u16(value: u16) -> Option<Self> {
        match value {
            1 => Some(Self::Pdf),
            2 => Some(Self::Zip),
            3 => Some(Self::Elf),
            _ => None,
        }
    }
}

#[test]
fn tests_exact_match() {
    let matcher = OneMatcher::new(TestType::Pdf, b"%PDF");

    assert_eq!(matcher.starts_with(b"%PDF"), Some(TestType::Pdf));
    assert_eq!(matcher.matches_exactly(b"%PDF"), Some(TestType::Pdf));
}

#[test]
fn prefix_with_extra_bytes() {
    let matcher = OneMatcher::new(TestType::Pdf, b"%PDF");

    assert_eq!(matcher.starts_with(b"%PDF-1.7"), Some(TestType::Pdf));
    assert_eq!(matcher.matches_exactly(b"%PDF-1.7"), None);
}

#[test]
fn shorter_or_different_input_returns_none() {
    let matcher = OneMatcher::new(TestType::Pdf, b"%PDF");

    assert_eq!(matcher.starts_with(b"%PD"), None);
    assert_eq!(matcher.matches_exactly(b"%PD"), None);
    assert_eq!(matcher.starts_with(b"%PDX"), None);
    assert_eq!(matcher.matches_exactly(b"%PDX"), None);
    assert_eq!(matcher.starts_with(b"PDF"), None);
    assert_eq!(matcher.matches_exactly(b"PDF"), None);
}

#[test]
fn empty_input_with_non_empty_pattern_returns_none() {
    let matcher = OneMatcher::new(TestType::Zip, b"PK");

    assert_eq!(matcher.starts_with(b""), None);
    assert_eq!(matcher.matches_exactly(b""), None);
}

#[test]
fn empty_pattern() {
    let matcher = OneMatcher::new(TestType::Pdf, b"");

    // starts_with: empty pattern is a prefix of every input.
    assert_eq!(matcher.starts_with(b""), Some(TestType::Pdf));
    assert_eq!(matcher.starts_with(b"anything"), Some(TestType::Pdf));
    // matches_exactly: only an empty input equals an empty pattern.
    assert_eq!(matcher.matches_exactly(b""), Some(TestType::Pdf));
    assert_eq!(matcher.matches_exactly(b"anything"), None);
}

#[test]
fn single_byte_pattern() {
    let matcher = OneMatcher::new(TestType::Zip, b"P");

    assert_eq!(matcher.starts_with(b"P"), Some(TestType::Zip));
    assert_eq!(matcher.starts_with(b"PK"), Some(TestType::Zip));
    assert_eq!(matcher.starts_with(b"X"), None);
    assert_eq!(matcher.matches_exactly(b"P"), Some(TestType::Zip));
    assert_eq!(matcher.matches_exactly(b"PK"), None);
    assert_eq!(matcher.matches_exactly(b"X"), None);
}

#[test]
fn tests_binary_magic_bytes() {
    let elf = OneMatcher::new(TestType::Elf, b"\x7fELF");
    let zip = OneMatcher::new(TestType::Zip, b"PK\x03\x04");

    assert_eq!(elf.starts_with(b"\x7fELF"), Some(TestType::Elf));
    assert_eq!(elf.starts_with(b"\x7fELF\x01\x01"), Some(TestType::Elf));
    assert_eq!(elf.starts_with(b"\x7fEL"), None);
    assert_eq!(elf.matches_exactly(b"\x7fELF"), Some(TestType::Elf));
    assert_eq!(elf.matches_exactly(b"\x7fELF\x01\x01"), None);
    assert_eq!(elf.matches_exactly(b"\x7fEL"), None);

    assert_eq!(zip.starts_with(b"PK\x03\x04extra"), Some(TestType::Zip));
    assert_eq!(zip.matches_exactly(b"PK\x03\x04extra"), None);
    assert_eq!(zip.matches_exactly(b"PK\x03\x04"), Some(TestType::Zip));
    assert_eq!(zip.starts_with(b"PK\x03\x03"), None);
    assert_eq!(zip.matches_exactly(b"PK\x03\x03"), None);
}

#[test]
fn returns_configured_content_type() {
    let pdf = OneMatcher::new(TestType::Pdf, b"magic");
    let zip = OneMatcher::new(TestType::Zip, b"magic");

    assert_eq!(pdf.starts_with(b"magic"), Some(TestType::Pdf));
    assert_eq!(zip.starts_with(b"magic"), Some(TestType::Zip));
    assert_eq!(pdf.matches_exactly(b"magic"), Some(TestType::Pdf));
    assert_eq!(zip.matches_exactly(b"magic"), Some(TestType::Zip));
}
