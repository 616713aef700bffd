use content_scan::content::{reader_request, seek_target};
use content_scan::extraction_pool::ExtractionPool;
use content_scan::implementations::zip_extractor::ZipExtractionSession;
use content_scan::implementations::zip_identifier::{zip_verdict, zip_window, ZipIdentifier};
use content_scan::{BufferContent, Content, ContentIdentifier};
use content_scan::scanner::{child_ends_pass, entry_accepted};
use content_scan::{BufferArena, MatcherBuilder, NextAction, TrieBuilder};

fn leaked(bytes: Vec<u8>) -> &'static [u8] {
    Box::leak(bytes.into_boxed_slice())
}

#[test]
fn trie_with_one_node_per_prefix_builds_up_to_the_limit() {
    let mut b = TrieBuilder::new();
    b.add(leaked(vec![7u8; 65535]), 3);
    let t = b.try_build().expect("65536 nodes fit");
    assert_eq!(t.matches_exactly(&vec![7u8; 65535]), Some(3));
    assert_eq!(t.starts_with(&vec![7u8; 70000]), Some(3));
}

#[test]
fn trie_past_the_node_limit_is_refused() {
    let mut b = TrieBuilder::new();
    b.add(leaked(vec![7u8; 65536]), 3);
    assert!(b.try_build().is_none());
}

#[test]
fn long_patterns_sharing_prefixes_still_build() {
    // Far more than 65536 bytes in total, but few distinct prefixes.
    let mut mb: MatcherBuilder<bool> = MatcherBuilder::new();
    let long = leaked(vec![b'a'; 40000]);
    mb.add(true, long);
    mb.add(false, long);
    mb.add(true, long);
    let m = mb.try_build().expect("fits");
    assert_eq!(m.matches_exactly(long), Some(true));
}

#[test]
fn single_long_pattern_never_needs_a_trie() {
    let mut mb: MatcherBuilder<bool> = MatcherBuilder::new();
    let huge = leaked(vec![1u8; 100000]);
    mb.add(true, huge);
    let m = mb.build();
    assert_eq!(m.matches_exactly(huge), Some(true));
}

#[test]
fn arena_holds_strings_side_by_side() {
    let mut a = BufferArena::new();
    let i = a.allocate(b"abc");
    let j = a.allocate(b"de");
    assert_eq!(a.get(i), Some(&b"abc"[..]));
    assert_eq!(a.get(j), Some(&b"de"[..]));
}

#[test]
fn freed_pool_slot_is_reused_and_stale_release_is_ignored() {
    let mut pool: ExtractionPool<u32> = ExtractionPool::new(4);
    let a = pool.acquire_slot(1);
    let b = pool.acquire_slot(2);
    assert_eq!((a.index(), b.index()), (0, 1));
    pool.release_slot(a);
    let c = pool.acquire_slot(3);
    assert_eq!(c.index(), a.index());
    assert_eq!(c.uid(), 3);
    assert_eq!(pool.get(a), None);
    pool.release_slot(a);
    assert_eq!(pool.get(c), Some(&3));
    let d = pool.acquire_slot(4);
    assert_eq!(d.index(), 2);
}

#[test]
fn filtered_entries_are_skipped_unless_exempt() {
    assert!(entry_accepted(true, Some(false)));
    assert!(!entry_accepted(false, Some(false)));
    assert!(entry_accepted(false, Some(true)));
    assert!(entry_accepted(false, None));
}

#[test]
fn only_an_exiting_child_ends_the_pass() {
    assert!(child_ends_pass(NextAction::Exit));
    assert!(!child_ends_pass(NextAction::Skip));
    assert!(!child_ends_pass(NextAction::Continue));
}

#[test]
fn end_of_central_directory_must_end_the_content() {
    let mut rec = vec![0u8; 30];
    rec[8..12].copy_from_slice(b"PK\x05\x06");
    // Record at 8, no comment: it ends at 30 in a 30-byte content.
    assert!(ZipIdentifier::<bool>::contains_eocd(&rec, 0, 30));
    // The same bytes do not end a 31-byte content.
    assert!(!ZipIdentifier::<bool>::contains_eocd(&rec, 0, 31));
    // A 2-byte comment makes the record end two bytes later.
    rec[28] = 2;
    assert!(ZipIdentifier::<bool>::contains_eocd(&rec, 0, 32));
}

#[test]
fn bytes_without_an_archive_open_no_session() {
    assert!(ZipExtractionSession::from_bytes(b"not a zip at all".to_vec()).is_none());
}

#[test]
fn stream_reads_are_capped_by_what_remains() {
    assert_eq!(reader_request(0, 10, 0), None);
    assert_eq!(reader_request(10, 10, 4), None);
    assert_eq!(reader_request(12, 10, 4), None);
    assert_eq!(reader_request(8, 10, 4), Some(2));
    assert_eq!(reader_request(0, 10, 4), Some(4));
    assert_eq!(reader_request(0, u64::MAX, usize::MAX), Some(u32::MAX));
}

#[test]
fn seeks_stay_within_u64() {
    assert_eq!(seek_target(10, -3), Some(7));
    assert_eq!(seek_target(10, -11), None);
    assert_eq!(seek_target(u64::MAX, 1), None);
    assert_eq!(seek_target(5, 0), Some(5));
}

#[test]
fn zip_windows_cover_the_tail_of_the_content() {
    assert_eq!(zip_window(100, 512), (0, 100));
    assert_eq!(zip_window(1000, 512), (488, 512));
    assert_eq!(zip_window(70000, 65557), (4443, 65557));
}

#[test]
fn zip_verdict_needs_a_record_ending_the_content() {
    let mut rec = vec![0u8; 22];
    rec[0..4].copy_from_slice(b"PK\x05\x06");
    assert!(zip_verdict(22, &rec, 0));
    assert!(!zip_verdict(23, &rec, 0));
    assert!(!zip_verdict(21, &rec[..21], 0));
}

#[test]
fn zip_identifier_checks_the_content_tail() {
    let id = ZipIdentifier::<bool>::new();
    let mut small: Box<dyn Content<bool>> = Box::new(BufferContent::<bool>::new(b"PK\x03\x04", "a.zip"));
    assert!(!id.validate(&mut small));
    let mut data = b"PK\x03\x04 some payload bytes".to_vec();
    let mut rec = vec![0u8; 22];
    rec[0..4].copy_from_slice(b"PK\x05\x06");
    data.extend_from_slice(&rec);
    let mut zip: Box<dyn Content<bool>> = Box::new(BufferContent::<bool>::new(&data, "a.zip"));
    assert!(id.validate(&mut zip));
    let mut trailing = data.clone();
    trailing.push(0);
    let mut not_zip: Box<dyn Content<bool>> = Box::new(BufferContent::<bool>::new(&trailing, "a.zip"));
    assert!(!id.validate(&mut not_zip));
}

#[test]
fn stream_reader_copies_what_fits_and_moves_on() {
    assert_eq!(content_scan::content::reader_step(10, 5, 8), (5, 15));
    assert_eq!(content_scan::content::reader_step(10, 9, 8), (8, 18));
    assert_eq!(content_scan::content::reader_step(0, 0, 8), (0, 0));
}
