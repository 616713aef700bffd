use content_scan::ContentPath;

#[test]
fn from_str_and_owned_string_are_lossless() {
    let from_ref = ContentPath::from_str("virtual://a");
    let owned = String::from("virtual://b");
    let from_owned = ContentPath::with_string(owned.clone());
    let from_string_ref = ContentPath::from_str(&owned);
    assert!(from_ref.is_lossless());
    assert_eq!(from_ref.as_printable_string(), "virtual://a");
    assert!(from_owned.is_lossless());
    assert_eq!(from_owned.as_printable_string(), "virtual://b");
    assert_eq!(from_string_ref.as_printable_string(), "virtual://b");
}

#[test]
fn os_bytes_keep_the_raw_name_and_a_printable_copy() {
    let raw = vec![b'a', 0xFF, b'b'];
    let p = ContentPath::from_os_bytes(String::from("a\u{FFFD}b"), raw.clone());
    assert!(!p.is_lossless());
    assert_eq!(p.as_bytes(), &raw[..]);
    assert_eq!(p.as_printable_string(), "a\u{FFFD}b");
}

#[test]
fn clear_and_set_replace_the_path() {
    let mut p = ContentPath::from_os_bytes(String::from("x"), vec![b'x', 0x80]);
    p.set_from_str("name.txt");
    assert!(p.is_lossless());
    assert_eq!(p.as_bytes(), b"name.txt");
    p.clear();
    assert_eq!(p.as_printable_string(), "");
    assert!(p.is_lossless());
    let e = ContentPath::empty();
    assert_eq!(e.as_bytes(), b"");
}
