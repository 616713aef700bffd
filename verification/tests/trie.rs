use content_scan::TrieBuilder;

#[test]
fn empty_trie_returns_none() {
    let trie = TrieBuilder::new().build();
    assert_eq!(trie.starts_with(b""), None);
    assert_eq!(trie.starts_with(b"abc"), None);
    assert_eq!(trie.matches_exactly(b""), None);
    assert_eq!(trie.matches_exactly(b"abc"), None);
}

#[test]
fn exact_match() {
    let mut builder = TrieBuilder::new();
    builder.add(b"hello", 42);
    let trie = builder.build();

    assert_eq!(trie.starts_with(b"hello"), Some(42));
    assert_eq!(trie.matches_exactly(b"hello"), Some(42));

    assert_eq!(trie.starts_with(b"hell"), None);
    assert_eq!(trie.matches_exactly(b"hell"), None);

    // Extra bytes: prefix match keeps last value; exact match rejects.
    assert_eq!(trie.starts_with(b"hello!"), Some(42));
    assert_eq!(trie.matches_exactly(b"hello!"), None);

    assert_eq!(trie.starts_with(b"world"), None);
    assert_eq!(trie.matches_exactly(b"world"), None);
}

#[test]
fn multiple_distinct_words() {
    let mut builder = TrieBuilder::new();
    builder.add(b"cat", 1);
    builder.add(b"dog", 2);
    builder.add(b"bird", 3);
    let trie = builder.build();

    assert_eq!(trie.starts_with(b"cat"), Some(1));
    assert_eq!(trie.starts_with(b"dog"), Some(2));
    assert_eq!(trie.starts_with(b"bird"), Some(3));
    assert_eq!(trie.starts_with(b"cow"), None);

    assert_eq!(trie.matches_exactly(b"cat"), Some(1));
    assert_eq!(trie.matches_exactly(b"dog"), Some(2));
    assert_eq!(trie.matches_exactly(b"bird"), Some(3));
    assert_eq!(trie.matches_exactly(b"cow"), None);
}

#[test]
fn shared_prefix() {
    let mut builder = TrieBuilder::new();
    builder.add(b"app", 10);
    builder.add(b"apple", 20);
    builder.add(b"apply", 30);
    let trie = builder.build();

    assert_eq!(trie.starts_with(b"app"), Some(10));
    assert_eq!(trie.starts_with(b"apple"), Some(20));
    assert_eq!(trie.starts_with(b"apply"), Some(30));
    // Continues past "app" into unmatched bytes; last match wins.
    assert_eq!(trie.starts_with(b"application"), Some(10));

    assert_eq!(trie.matches_exactly(b"app"), Some(10));
    assert_eq!(trie.matches_exactly(b"apple"), Some(20));
    assert_eq!(trie.matches_exactly(b"apply"), Some(30));
    assert_eq!(trie.matches_exactly(b"application"), None);
}

#[test]
fn longest_matching_prefix_value() {
    let mut builder = TrieBuilder::new();
    builder.add(b"a", 1);
    builder.add(b"ab", 2);
    builder.add(b"abc", 3);
    let trie = builder.build();

    assert_eq!(trie.starts_with(b"a"), Some(1));
    assert_eq!(trie.starts_with(b"ab"), Some(2));
    assert_eq!(trie.starts_with(b"abc"), Some(3));
    assert_eq!(trie.starts_with(b"abcd"), Some(3));
    assert_eq!(trie.starts_with(b"ax"), Some(1));

    assert_eq!(trie.matches_exactly(b"a"), Some(1));
    assert_eq!(trie.matches_exactly(b"ab"), Some(2));
    assert_eq!(trie.matches_exactly(b"abc"), Some(3));
    assert_eq!(trie.matches_exactly(b"abcd"), None);
    assert_eq!(trie.matches_exactly(b"ax"), None);
}

#[test]
fn unmatched_input_keeps_last_value_for_starts_with() {
    let mut builder = TrieBuilder::new();
    builder.add(b"ab", 7);
    let trie = builder.build();

    assert_eq!(trie.starts_with(b"abX"), Some(7));
    assert_eq!(trie.matches_exactly(b"abX"), None);

    assert_eq!(trie.starts_with(b"a"), None);
    assert_eq!(trie.matches_exactly(b"a"), None);
    assert_eq!(trie.starts_with(b"X"), None);
    assert_eq!(trie.matches_exactly(b"X"), None);
}

#[test]
fn empty_word_sets_root_value() {
    let mut builder = TrieBuilder::new();
    builder.add(b"", 99);
    builder.add(b"x", 1);
    let trie = builder.build();

    assert_eq!(trie.starts_with(b""), Some(99));
    assert_eq!(trie.matches_exactly(b""), Some(99));

    assert_eq!(trie.starts_with(b"x"), Some(1));
    assert_eq!(trie.matches_exactly(b"x"), Some(1));

    // Unmatched path still has the root value for starts_with.
    assert_eq!(trie.starts_with(b"z"), Some(99));
    assert_eq!(trie.matches_exactly(b"z"), None);
}

#[test]
fn later_add_overwrites_same_word_value() {
    let mut builder = TrieBuilder::new();
    builder.add(b"key", 1);
    builder.add(b"key", 2);
    let trie = builder.build();

    assert_eq!(trie.starts_with(b"key"), Some(2));
    assert_eq!(trie.matches_exactly(b"key"), Some(2));
}

#[test]
fn binary_magic_bytes() {
    let mut builder = TrieBuilder::new();
    builder.add(b"\x7fELF", 100);
    builder.add(b"PK\x03\x04", 200);
    builder.add(&[0xFF, 0xD8, 0xFF], 300);
    let trie = builder.build();

    assert_eq!(trie.starts_with(b"\x7fELF\x01\x01"), Some(100));
    assert_eq!(trie.matches_exactly(b"\x7fELF\x01\x01"), None);
    assert_eq!(trie.matches_exactly(b"\x7fELF"), Some(100));

    assert_eq!(trie.starts_with(b"PK\x03\x04extra"), Some(200));
    assert_eq!(trie.matches_exactly(b"PK\x03\x04extra"), None);
    assert_eq!(trie.matches_exactly(b"PK\x03\x04"), Some(200));

    assert_eq!(trie.starts_with(&[0xFF, 0xD8, 0xFF, 0xE0]), Some(300));
    assert_eq!(trie.matches_exactly(&[0xFF, 0xD8, 0xFF, 0xE0]), None);
    assert_eq!(trie.matches_exactly(&[0xFF, 0xD8, 0xFF]), Some(300));

    assert_eq!(trie.starts_with(b"\x7fEL"), None);
    assert_eq!(trie.matches_exactly(b"\x7fEL"), None);
}

#[test]
fn many_children_branching() {
    // More than a handful of distinct edges from one node.
    let mut builder = TrieBuilder::new();
    builder.add(b"a", 1);
    builder.add(b"b", 2);
    builder.add(b"c", 3);
    builder.add(b"d", 4);
    builder.add(b"e", 5);
    builder.add(b"m", 13);
    builder.add(b"z", 26);
    let trie = builder.build();

    assert_eq!(trie.starts_with(b"a"), Some(1));
    assert_eq!(trie.starts_with(b"c"), Some(3));
    assert_eq!(trie.starts_with(b"e"), Some(5));
    assert_eq!(trie.starts_with(b"m"), Some(13));
    assert_eq!(trie.starts_with(b"z"), Some(26));
    assert_eq!(trie.starts_with(b"f"), None);

    assert_eq!(trie.matches_exactly(b"a"), Some(1));
    assert_eq!(trie.matches_exactly(b"c"), Some(3));
    assert_eq!(trie.matches_exactly(b"e"), Some(5));
    assert_eq!(trie.matches_exactly(b"m"), Some(13));
    assert_eq!(trie.matches_exactly(b"z"), Some(26));
    assert_eq!(trie.matches_exactly(b"f"), None);
}

#[test]
fn deep_chain() {
    let mut builder = TrieBuilder::new();
    builder.add(b"abcdefghijklmnopqrstuvwxyz", 1);
    let trie = builder.build();

    assert_eq!(trie.starts_with(b"abcdefghijklmnopqrstuvwxyz"), Some(1));
    assert_eq!(trie.matches_exactly(b"abcdefghijklmnopqrstuvwxyz"), Some(1));

    assert_eq!(trie.starts_with(b"abcdefghijklmnopqrstuvwxy"), None);
    assert_eq!(trie.matches_exactly(b"abcdefghijklmnopqrstuvwxy"), None);

    assert_eq!(trie.starts_with(b"abcdefghijklmnopqrstuvwxyz!"), Some(1));
    assert_eq!(trie.matches_exactly(b"abcdefghijklmnopqrstuvwxyz!"), None);
}

// The same trie, read through `scan`.

#[test]
fn tests_empty_trie_returns_none() {
    let trie = TrieBuilder::new().build();
    assert_eq!(trie.scan(b""), None);
    assert_eq!(trie.scan(b"abc"), None);
}

#[test]
fn scan_exact_match() {
    let mut builder = TrieBuilder::new();
    builder.add(b"hello", 42);
    let trie = builder.build();

    assert_eq!(trie.scan(b"hello"), Some(42));
    assert_eq!(trie.scan(b"hell"), None);
    assert_eq!(trie.scan(b"hello!"), Some(42));
    assert_eq!(trie.scan(b"world"), None);
}

#[test]
fn tests_multiple_distinct_words() {
    let mut builder = TrieBuilder::new();
    builder.add(b"cat", 1);
    builder.add(b"dog", 2);
    builder.add(b"bird", 3);
    let trie = builder.build();

    assert_eq!(trie.scan(b"cat"), Some(1));
    assert_eq!(trie.scan(b"dog"), Some(2));
    assert_eq!(trie.scan(b"bird"), Some(3));
    assert_eq!(trie.scan(b"cow"), None);
}

#[test]
fn tests_shared_prefix() {
    let mut builder = TrieBuilder::new();
    builder.add(b"app", 10);
    builder.add(b"apple", 20);
    builder.add(b"apply", 30);
    let trie = builder.build();

    assert_eq!(trie.scan(b"app"), Some(10));
    assert_eq!(trie.scan(b"apple"), Some(20));
    assert_eq!(trie.scan(b"apply"), Some(30));
    // Continues past "app" into unmatched bytes; last match wins.
    assert_eq!(trie.scan(b"application"), Some(10));
}

#[test]
fn tests_longest_matching_prefix_value() {
    let mut builder = TrieBuilder::new();
    builder.add(b"a", 1);
    builder.add(b"ab", 2);
    builder.add(b"abc", 3);
    let trie = builder.build();

    assert_eq!(trie.scan(b"a"), Some(1));
    assert_eq!(trie.scan(b"ab"), Some(2));
    assert_eq!(trie.scan(b"abc"), Some(3));
    assert_eq!(trie.scan(b"abcd"), Some(3));
    assert_eq!(trie.scan(b"ax"), Some(1));
}

#[test]
fn unmatched_input_keeps_last_value() {
    let mut builder = TrieBuilder::new();
    builder.add(b"ab", 7);
    let trie = builder.build();

    assert_eq!(trie.scan(b"abX"), Some(7));
    assert_eq!(trie.scan(b"a"), None);
    assert_eq!(trie.scan(b"X"), None);
}

#[test]
fn tests_empty_word_sets_root_value() {
    let mut builder = TrieBuilder::new();
    builder.add(b"", 99);
    builder.add(b"x", 1);
    let trie = builder.build();

    assert_eq!(trie.scan(b""), Some(99));
    assert_eq!(trie.scan(b"x"), Some(1));
    // Unmatched path still has the root value.
    assert_eq!(trie.scan(b"z"), Some(99));
}

#[test]
fn tests_later_add_overwrites_same_word_value() {
    let mut builder = TrieBuilder::new();
    builder.add(b"key", 1);
    builder.add(b"key", 2);
    let trie = builder.build();

    assert_eq!(trie.scan(b"key"), Some(2));
}

#[test]
fn scan_binary_magic_bytes() {
    let mut builder = TrieBuilder::new();
    builder.add(b"\x7fELF", 100);
    builder.add(b"PK\x03\x04", 200);
    builder.add(&[0xFF, 0xD8, 0xFF], 300);
    let trie = builder.build();

    assert_eq!(trie.scan(b"\x7fELF\x01\x01"), Some(100));
    assert_eq!(trie.scan(b"PK\x03\x04extra"), Some(200));
    assert_eq!(trie.scan(&[0xFF, 0xD8, 0xFF, 0xE0]), Some(300));
    assert_eq!(trie.scan(b"\x7fEL"), None);
}

#[test]
fn tests_many_children_branching() {
    let mut builder = TrieBuilder::new();
    builder.add(b"a", 1);
    builder.add(b"b", 2);
    builder.add(b"c", 3);
    builder.add(b"d", 4);
    builder.add(b"e", 5);
    builder.add(b"m", 13);
    builder.add(b"z", 26);
    let trie = builder.build();

    assert_eq!(trie.scan(b"a"), Some(1));
    assert_eq!(trie.scan(b"c"), Some(3));
    assert_eq!(trie.scan(b"e"), Some(5));
    assert_eq!(trie.scan(b"m"), Some(13));
    assert_eq!(trie.scan(b"z"), Some(26));
    assert_eq!(trie.scan(b"f"), None);
}

#[test]
fn tests_deep_chain() {
    let mut builder = TrieBuilder::new();
    builder.add(b"abcdefghijklmnopqrstuvwxyz", 1);
    let trie = builder.build();

    assert_eq!(trie.scan(b"abcdefghijklmnopqrstuvwxyz"), Some(1));
    assert_eq!(trie.scan(b"abcdefghijklmnopqrstuvwxy"), None);
    assert_eq!(trie.scan(b"abcdefghijklmnopqrstuvwxyz!"), Some(1));
}

#[test]
fn many_words_sharing_one_node_are_all_found() {
    // Every byte value as a child of the root.
    let words: Vec<&'static [u8]> = (0..=255u8).map(|b| &*Box::leak(vec![b].into_boxed_slice())).collect();
    let mut builder = TrieBuilder::new();
    for (i, w) in words.iter().enumerate() {
        builder.add(w, i as u16 + 1);
    }
    let trie = builder.build();
    for (i, w) in words.iter().enumerate() {
        assert_eq!(trie.matches_exactly(w), Some(i as u16 + 1));
    }
}
