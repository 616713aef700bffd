use content_scan::{AnalyzerList, ContentType, PluginsList};

#[derive(Debug, Clone, Copy, PartialEq, Eq, Ord, PartialOrd)]
enum TestType {
    A,
    B,
    C,
}

impl ContentType for TestType {
    const COUNT: u16 = 3;

    fn id(&self) -> u16 {
        self.as_u16()
    }

    fn lemma_id_unique(_a: Self, _b: Self) {}

    fn as_u16(&self) -> u16 {
        match self {
            TestType::A => 0,
            TestType::B => 1,
            TestType::C => 2,
        }
    }

    fn from_u16(value: u16) -> Option<Self> {
        match value {
            0 => Some(Self::A),
            1 => Some(Self::B),
            2 => Some(Self::C),
            _ => None,
        }
    }
}

fn typed(type_id: u16, priority: u8, value: &str) -> (u32, String) {
    ((type_id as u32) << 16 | priority as u32, value.to_string())
}

fn generic(priority: u8, value: &str) -> (u32, String) {
    (0xFFFF_0000 | priority as u32, value.to_string())
}

fn values_in_range(list: &mut AnalyzerList<String>, start: usize, end: usize) -> Vec<String> {
    (start..end).map(|i| list.get(i).clone()).collect()
}

fn plugins_in_range(list: &mut PluginsList<String>, start: usize, end: usize) -> Vec<String> {
    (start..end).map(|i| list.get(i).clone()).collect()
}

#[test]
fn empty_with_types_has_no_ranges() {
    let list = AnalyzerList::<String>::new(vec![], TestType::COUNT);
    assert_eq!(list.len(), 0);
    assert_eq!(list.range(TestType::A), None);
    assert_eq!(list.range(TestType::B), None);
    assert_eq!(list.range(TestType::C), None);
    assert_eq!(list.generic_range(), None);
}

#[test]
fn empty_with_zero_max_count() {
    let list = AnalyzerList::<String>::new(vec![], 0);
    assert_eq!(list.len(), 0);
    assert_eq!(list.range(TestType::A), None);
    assert_eq!(list.generic_range(), None);
}

#[test]
fn single_typed_plugin() {
    let mut list = AnalyzerList::new(vec![typed(0, 1, "a")], TestType::COUNT);
    assert_eq!(list.len(), 1);
    assert_eq!(list.range(TestType::A), Some((0, 1)));
    assert_eq!(list.range(TestType::B), None);
    assert_eq!(list.generic_range(), None);
    assert_eq!(list.get(0), "a");
}

#[test]
fn multiple_plugins_same_type_sorted_by_priority() {
    // Insert out of priority order; lower priority value comes first.
    let mut list = AnalyzerList::new(vec![typed(0, 30, "p30"), typed(0, 10, "p10"), typed(0, 20, "p20")], TestType::COUNT);
    assert_eq!(list.range(TestType::A), Some((0, 3)));
    assert_eq!(values_in_range(&mut list, 0, 3), ["p10", "p20", "p30"]);
    assert_eq!(list.generic_range(), None);
}

#[test]
fn multiple_types_get_disjoint_ranges() {
    let mut list = AnalyzerList::new(
        vec![
            typed(2, 1, "c1"),
            typed(0, 1, "a1"),
            typed(1, 1, "b1"),
            typed(0, 2, "a2"),
            typed(2, 0, "c0"),
        ],
        TestType::COUNT,
    );
    assert_eq!(list.len(), 5);
    assert_eq!(list.range(TestType::A), Some((0, 2)));
    assert_eq!(list.range(TestType::B), Some((2, 3)));
    assert_eq!(list.range(TestType::C), Some((3, 5)));
    assert_eq!(values_in_range(&mut list, 0, 2), ["a1", "a2"]);
    assert_eq!(values_in_range(&mut list, 2, 3), ["b1"]);
    assert_eq!(values_in_range(&mut list, 3, 5), ["c0", "c1"]);
    assert_eq!(list.generic_range(), None);
}

#[test]
fn missing_middle_type_returns_none() {
    let list = AnalyzerList::new(vec![typed(0, 0, "a"), typed(2, 0, "c")], TestType::COUNT);
    assert_eq!(list.range(TestType::A), Some((0, 1)));
    assert_eq!(list.range(TestType::B), None);
    assert_eq!(list.range(TestType::C), Some((1, 2)));
}

#[test]
fn only_last_type_populated() {
    let list = AnalyzerList::new(vec![typed(2, 5, "c")], TestType::COUNT);
    assert_eq!(list.range(TestType::A), None);
    assert_eq!(list.range(TestType::B), None);
    assert_eq!(list.range(TestType::C), Some((0, 1)));
    assert_eq!(list.generic_range(), None);
}

#[test]
fn generics_only() {
    let mut list = AnalyzerList::new(vec![generic(2, "g2"), generic(0, "g0"), generic(1, "g1")], TestType::COUNT);
    assert_eq!(list.range(TestType::A), None);
    assert_eq!(list.range(TestType::B), None);
    assert_eq!(list.range(TestType::C), None);
    assert_eq!(list.generic_range(), Some((0, 3)));
    assert_eq!(values_in_range(&mut list, 0, 3), ["g0", "g1", "g2"]);
}

#[test]
fn generics_only_with_zero_max_count() {
    let mut list = AnalyzerList::new(vec![generic(1, "g")], 0);
    assert_eq!(list.len(), 1);
    assert_eq!(list.range(TestType::A), None);
    assert_eq!(list.generic_range(), Some((0, 1)));
    assert_eq!(list.get(0), "g");
}

#[test]
fn typed_then_generics() {
    let mut list = AnalyzerList::new(
        vec![generic(1, "g1"), typed(1, 0, "b"), typed(0, 0, "a0"), generic(0, "g0"), typed(0, 1, "a1")],
        TestType::COUNT,
    );
    assert_eq!(list.len(), 5);
    assert_eq!(list.range(TestType::A), Some((0, 2)));
    assert_eq!(list.range(TestType::B), Some((2, 3)));
    assert_eq!(list.range(TestType::C), None);
    assert_eq!(list.generic_range(), Some((3, 5)));
    assert_eq!(values_in_range(&mut list, 0, 2), ["a0", "a1"]);
    assert_eq!(values_in_range(&mut list, 2, 3), ["b"]);
    assert_eq!(values_in_range(&mut list, 3, 5), ["g0", "g1"]);
}

#[test]
fn single_typed_then_single_generic() {
    let mut list = AnalyzerList::new(vec![typed(0, 0, "a"), generic(0, "g")], TestType::COUNT);
    assert_eq!(list.range(TestType::A), Some((0, 1)));
    assert_eq!(list.generic_range(), Some((1, 2)));
    assert_eq!(list.get(0), "a");
    assert_eq!(list.get(1), "g");
}

#[test]
fn range_for_type_beyond_max_count_returns_none() {
    #[derive(Clone, Copy, PartialEq, Eq, Debug, Ord, PartialOrd)]
    struct OutOfRange;
    impl ContentType for OutOfRange {
        const COUNT: u16 = 1;

        fn id(&self) -> u16 {
            self.as_u16()
        }

        fn lemma_id_unique(_a: Self, _b: Self) {}
        fn as_u16(&self) -> u16 {
            99
        }
        fn from_u16(_: u16) -> Option<Self> {
            None
        }
    }

    let list = AnalyzerList::new(vec![typed(0, 0, "a")], 1);
    assert_eq!(list.range(OutOfRange), None);
}

#[test]
fn get_allows_mutation() {
    let mut list = AnalyzerList::new(vec![typed(0, 0, "old")], TestType::COUNT);
    *list.get(0) = "new".to_string();
    assert_eq!(list.get(0), "new");
}


// The same list under its own name.

#[test]
fn tests_empty_with_types_has_no_ranges() {
    let list = PluginsList::<String>::new(vec![], TestType::COUNT);
    assert_eq!(list.len(), 0);
    assert_eq!(list.range(TestType::A), None);
    assert_eq!(list.range(TestType::B), None);
    assert_eq!(list.range(TestType::C), None);
    assert_eq!(list.generic_range(), None);
}

#[test]
fn tests_empty_with_zero_max_count() {
    let list = PluginsList::<String>::new(vec![], 0);
    assert_eq!(list.len(), 0);
    assert_eq!(list.range(TestType::A), None);
    assert_eq!(list.generic_range(), None);
}

#[test]
fn tests_single_typed_plugin() {
    let mut list = PluginsList::new(vec![typed(0, 1, "a")], TestType::COUNT);
    assert_eq!(list.len(), 1);
    assert_eq!(list.range(TestType::A), Some((0, 1)));
    assert_eq!(list.range(TestType::B), None);
    assert_eq!(list.generic_range(), None);
    assert_eq!(list.get(0), "a");
}

#[test]
fn tests_multiple_plugins_same_type_sorted_by_priority() {
    // Insert out of priority order; lower priority value comes first.
    let mut list = PluginsList::new(vec![typed(0, 30, "p30"), typed(0, 10, "p10"), typed(0, 20, "p20")], TestType::COUNT);
    assert_eq!(list.range(TestType::A), Some((0, 3)));
    assert_eq!(plugins_in_range(&mut list, 0, 3), ["p10", "p20", "p30"]);
    assert_eq!(list.generic_range(), None);
}

#[test]
fn tests_multiple_types_get_disjoint_ranges() {
    let mut list = PluginsList::new(
        vec![
            typed(2, 1, "c1"),
            typed(0, 1, "a1"),
            typed(1, 1, "b1"),
            typed(0, 2, "a2"),
            typed(2, 0, "c0"),
        ],
        TestType::COUNT,
    );
    assert_eq!(list.len(), 5);
    assert_eq!(list.range(TestType::A), Some((0, 2)));
    assert_eq!(list.range(TestType::B), Some((2, 3)));
    assert_eq!(list.range(TestType::C), Some((3, 5)));
    assert_eq!(plugins_in_range(&mut list, 0, 2), ["a1", "a2"]);
    assert_eq!(plugins_in_range(&mut list, 2, 3), ["b1"]);
    assert_eq!(plugins_in_range(&mut list, 3, 5), ["c0", "c1"]);
    assert_eq!(list.generic_range(), None);
}

#[test]
fn tests_missing_middle_type_returns_none() {
    let list = PluginsList::new(vec![typed(0, 0, "a"), typed(2, 0, "c")], TestType::COUNT);
    assert_eq!(list.range(TestType::A), Some((0, 1)));
    assert_eq!(list.range(TestType::B), None);
    assert_eq!(list.range(TestType::C), Some((1, 2)));
}

#[test]
fn tests_only_last_type_populated() {
    let list = PluginsList::new(vec![typed(2, 5, "c")], TestType::COUNT);
    assert_eq!(list.range(TestType::A), None);
    assert_eq!(list.range(TestType::B), None);
    assert_eq!(list.range(TestType::C), Some((0, 1)));
    assert_eq!(list.generic_range(), None);
}

#[test]
fn tests_generics_only() {
    let mut list = PluginsList::new(vec![generic(2, "g2"), generic(0, "g0"), generic(1, "g1")], TestType::COUNT);
    assert_eq!(list.range(TestType::A), None);
    assert_eq!(list.range(TestType::B), None);
    assert_eq!(list.range(TestType::C), None);
    assert_eq!(list.generic_range(), Some((0, 3)));
    assert_eq!(plugins_in_range(&mut list, 0, 3), ["g0", "g1", "g2"]);
}

#[test]
fn tests_generics_only_with_zero_max_count() {
    let mut list = PluginsList::new(vec![generic(1, "g")], 0);
    assert_eq!(list.len(), 1);
    assert_eq!(list.range(TestType::A), None);
    assert_eq!(list.generic_range(), Some((0, 1)));
    assert_eq!(list.get(0), "g");
}

#[test]
fn tests_typed_then_generics() {
    let mut list = PluginsList::new(
        vec![generic(1, "g1"), typed(1, 0, "b"), typed(0, 0, "a0"), generic(0, "g0"), typed(0, 1, "a1")],
        TestType::COUNT,
    );
    assert_eq!(list.len(), 5);
    assert_eq!(list.range(TestType::A), Some((0, 2)));
    assert_eq!(list.range(TestType::B), Some((2, 3)));
    assert_eq!(list.range(TestType::C), None);
    assert_eq!(list.generic_range(), Some((3, 5)));
    assert_eq!(plugins_in_range(&mut list, 0, 2), ["a0", "a1"]);
    assert_eq!(plugins_in_range(&mut list, 2, 3), ["b"]);
    assert_eq!(plugins_in_range(&mut list, 3, 5), ["g0", "g1"]);
}

#[test]
fn tests_single_typed_then_single_generic() {
    let mut list = PluginsList::new(vec![typed(0, 0, "a"), generic(0, "g")], TestType::COUNT);
    assert_eq!(list.range(TestType::A), Some((0, 1)));
    assert_eq!(list.generic_range(), Some((1, 2)));
    assert_eq!(list.get(0), "a");
    assert_eq!(list.get(1), "g");
}

#[test]
fn tests_range_for_type_beyond_max_count_returns_none() {
    #[derive(Clone, Copy, PartialEq, Eq, Debug, Ord, PartialOrd)]
    struct OutOfRange;
    impl ContentType for OutOfRange {
        const COUNT: u16 = 1;

        fn id(&self) -> u16 {
            self.as_u16()
        }

        fn lemma_id_unique(_a: Self, _b: Self) {}
        fn as_u16(&self) -> u16 {
            99
        }
        fn from_u16(_: u16) -> Option<Self> {
            None
        }
    }

    let list = PluginsList::new(vec![typed(0, 0, "a")], 1);
    assert_eq!(list.range(OutOfRange), None);
}

#[test]
fn tests_get_allows_mutation() {
    let mut list = PluginsList::new(vec![typed(0, 0, "old")], TestType::COUNT);
    *list.get(0) = "new".to_string();
    assert_eq!(list.get(0), "new");
}


#[test]
#[should_panic(expected = "Invalid type_id")]
fn invalid_type_id_panics() {
    let _list = AnalyzerList::try_new(vec![typed(3, 0, "bad")], TestType::COUNT).expect("Invalid type_id");
}

#[test]
#[should_panic(expected = "Invalid type_id")]
fn type_id_equal_to_max_count_panics() {
    // Valid typed ids are 0..max_count; max_count itself is invalid.
    let _list = AnalyzerList::try_new(vec![typed(TestType::COUNT, 0, "bad")], TestType::COUNT).expect("Invalid type_id");
}

#[test]
#[should_panic(expected = "Invalid type_id")]
fn tests_invalid_type_id_panics() {
    let _list = PluginsList::try_new(vec![typed(3, 0, "bad")], TestType::COUNT).expect("Invalid type_id");
}

#[test]
#[should_panic(expected = "Invalid type_id")]
fn tests_type_id_equal_to_max_count_panics() {
    // Valid typed ids are 0..max_count; max_count itself is invalid.
    let _list = PluginsList::try_new(vec![typed(TestType::COUNT, 0, "bad")], TestType::COUNT).expect("Invalid type_id");
}

#[test]
fn valid_ids_and_generic_plugins_are_accepted_by_try_new() {
    let list = PluginsList::try_new(vec![typed(2, 0, "c"), generic(1, "g")], TestType::COUNT).unwrap();
    assert_eq!(list.range(TestType::C), Some((0, 1)));
    assert_eq!(list.generic_range(), Some((1, 2)));
}
