use content_scan::{ContentType, PackedKey, PackedLinearList};

#[derive(Debug, Clone, Copy, PartialEq, Eq)]
enum TestType {
    A,
    B,
    C,
    D,
}

impl ContentType for TestType {
    const COUNT: u16 = 5;

    fn id(&self) -> u16 {
        self.as_u16()
    }

    fn lemma_id_unique(_a: Self, _b: Self) {}

    fn as_u16(&self) -> u16 {
        match self {
            TestType::A => 1,
            TestType::B => 2,
            TestType::C => 3,
            TestType::D => 4,
        }
    }

    fn from_u16(value: u16) -> Option<Self> {
        match value {
            1 => Some(Self::A),
            2 => Some(Self::B),
            3 => Some(Self::C),
            4 => Some(Self::D),
            _ => None,
        }
    }
}

#[test]
fn accepts_full_width_pattern() {
    let list = PackedLinearList::<TestType, u32>::new(&[(TestType::A, b"abcd")]).unwrap();
    assert_eq!(list.find(u32::pack(b"abcd")), Some(TestType::A));
}

#[test]
fn rejects_five_byte_pattern() {
    assert!(PackedLinearList::<TestType, u32>::new(&[(TestType::A, b"abcde")]).is_none());
}

#[test]
fn tests_accepts_full_width_pattern() {
    let list = PackedLinearList::<TestType, u64>::new(&[(TestType::A, b"abcdefgh")]).unwrap();
    assert_eq!(list.find(u64::pack(b"abcdefgh")), Some(TestType::A));
}

#[test]
fn rejects_nine_byte_pattern() {
    assert!(PackedLinearList::<TestType, u64>::new(&[(TestType::A, b"abcdefghi")]).is_none());
}

#[test]
fn patterns_longer_than_u32_width() {
    let list = PackedLinearList::<TestType, u64>::new(&[(TestType::A, b"12345"), (TestType::B, b"67890")]).unwrap();
    assert_eq!(list.find(u64::pack(b"12345")), Some(TestType::A));
    assert_eq!(list.find(u64::pack(b"67890")), Some(TestType::B));
    assert_eq!(list.find(u64::pack(b"123456")), None);
}

fn seventeen() -> Vec<(TestType, &'static [u8])> {
    let pats: [&'static [u8]; 17] =
        [b"0", b"1", b"2", b"3", b"4", b"5", b"6", b"7", b"8", b"9", b"a", b"b", b"c", b"d", b"e", b"f", b"g"];
    pats.iter().map(|p| (TestType::A, *p)).collect()
}

#[test]
fn u32_key_rejects_empty_too_many_and_mixed() {
    assert!(PackedLinearList::<TestType, u32>::new(&[]).is_none());
    assert!(PackedLinearList::<TestType, u32>::new(&seventeen()).is_none());
    assert!(PackedLinearList::<TestType, u32>::new(&[(TestType::A, b"")]).is_none());
    assert!(PackedLinearList::<TestType, u32>::new(&[(TestType::A, b"ab" as &[u8]), (TestType::B, b"abc")]).is_none());
}

#[test]
fn u64_key_rejects_empty_too_many_and_mixed() {
    assert!(PackedLinearList::<TestType, u64>::new(&[]).is_none());
    assert!(PackedLinearList::<TestType, u64>::new(&seventeen()).is_none());
    assert!(PackedLinearList::<TestType, u64>::new(&[(TestType::A, b"")]).is_none());
    assert!(PackedLinearList::<TestType, u64>::new(&[(TestType::A, b"ab" as &[u8]), (TestType::B, b"abc")]).is_none());
}

#[test]
fn u32_key_finds_each_pattern_and_the_first_duplicate() {
    let list = PackedLinearList::<TestType, u32>::new(&[
        (TestType::A, b"%PDF"),
        (TestType::B, b"PK\x03\x04"),
        (TestType::C, b"\x7fELF"),
    ])
    .unwrap();
    assert_eq!(list.find(u32::pack(b"%PDF")), Some(TestType::A));
    assert_eq!(list.find(u32::pack(b"PK\x03\x04")), Some(TestType::B));
    assert_eq!(list.find(u32::pack(b"\x7fELF")), Some(TestType::C));
    assert_eq!(list.find(u32::pack(b"XXXX")), None);

    let dup = PackedLinearList::<TestType, u32>::new(&[(TestType::A, b"key"), (TestType::B, b"key")]).unwrap();
    assert_eq!(dup.find(u32::pack(b"key")), Some(TestType::A));
}

#[test]
fn sixteen_patterns_are_accepted() {
    let patterns: [(TestType, &'static [u8]); 16] = [
        (TestType::A, b"00"),
        (TestType::B, b"01"),
        (TestType::C, b"02"),
        (TestType::D, b"03"),
        (TestType::A, b"04"),
        (TestType::B, b"05"),
        (TestType::C, b"06"),
        (TestType::D, b"07"),
        (TestType::A, b"08"),
        (TestType::B, b"09"),
        (TestType::C, b"0a"),
        (TestType::D, b"0b"),
        (TestType::A, b"0c"),
        (TestType::B, b"0d"),
        (TestType::C, b"0e"),
        (TestType::D, b"0f"),
    ];
    let list = PackedLinearList::<TestType, u64>::new(&patterns).unwrap();
    assert_eq!(list.find(u64::pack(b"00")), Some(TestType::A));
    assert_eq!(list.find(u64::pack(b"0f")), Some(TestType::D));
    assert_eq!(list.find(u64::pack(b"10")), None);
}

#[test]
fn pack_is_big_endian_and_zero_padded() {
    assert_eq!(u32::pack(b"AB"), 0x4142_0000);
    assert_eq!(u32::pack(b"ABCDE"), 0x4142_4344);
    assert_eq!(u64::pack(b"\x01"), 0x0100_0000_0000_0000);
    assert_ne!(u32::pack(b"AB"), u32::pack(b"ABCD"));
    let list = PackedLinearList::<TestType, u32>::new(&[(TestType::A, b"AB")]).unwrap();
    assert_eq!(list.find(u32::pack(b"AB")), Some(TestType::A));
    assert_eq!(list.find(u32::pack(b"ABCD")), None);
}
