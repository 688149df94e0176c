use wayfinder_core::images::Decoded;
use wayfinder_core::thumbs::{decimal_string, id, parse, parse_u32, Thumbs};

#[test]
fn ids_carry_the_size_and_the_path() {
    let i = id(256, "C:\\Photos\\a.jpg");
    assert_eq!(i, "thumb:256:C:\\Photos\\a.jpg");
    assert_eq!(parse(&i), Some((256, "C:\\Photos\\a.jpg".to_string())));
    assert_eq!(parse("file:C:\\a.jpg"), None);
}

#[test]
fn sizes_are_read_as_str_parse_reads_them() {
    let p = |s: &str| parse_u32(&s.chars().collect());
    assert_eq!(p("256"), Some(256));
    assert_eq!(p("+7"), Some(7));
    assert_eq!(p("4294967295"), Some(u32::MAX));
    assert_eq!(p("4294967296"), None);
    assert_eq!(p(""), None);
    assert_eq!(p("+"), None);
    assert_eq!(p("-1"), None);
    assert_eq!(p("12a"), None);
    assert_eq!(parse("thumb:x:C:\\a.jpg"), None);
    assert_eq!(parse("thumb:64"), None);
    assert_eq!(parse("thumb:64:"), Some((64, String::new())));
}

#[test]
fn numbers_are_written_without_leading_zeros() {
    assert_eq!(decimal_string(0), "0");
    assert_eq!(decimal_string(9), "9");
    assert_eq!(decimal_string(10), "10");
    assert_eq!(decimal_string(u64::MAX), "18446744073709551615");
    assert_eq!(id(0, ""), "thumb:0:");
}

#[test]
fn a_request_is_queued_once_and_taken_when_ready() {
    let mut t = Thumbs::new();
    assert!(!t.has_pending() && t.cache().is_none());
    t.set_cache("C:\\data\\.cache\\thumbs".to_string());
    assert_eq!(t.cache(), Some("C:\\data\\.cache\\thumbs"));
    let (a, b) = (id(64, "C:\\p.png"), id(64, "C:\\nope.png"));
    assert!(t.request(&a));
    assert!(!t.request(&a), "the duplicate request is dropped");
    assert!(t.request(&b));
    assert!(t.is_pending(&a) && t.is_pending(&b) && t.has_pending());
    let d = Decoded { px: vec![0; 4], w: 1, h: 1, frames: None };
    let got = t.take(vec![(a.clone(), Some(d))]);
    assert_eq!(got.len(), 1);
    assert!(!t.is_pending(&a) && t.is_pending(&b));
    let got = t.take(vec![(b.clone(), None)]);
    assert!(got[0].1.is_none(), "an unreadable file comes back empty");
    assert!(!t.has_pending());
}

use wayfinder_core::thumbs::{cache_name, fnv1a_hash};

#[test]
fn a_small_copy_is_named_by_its_file_size_time_and_max() {
    assert_eq!(fnv1a_hash(b""), 0xcbf2_9ce4_8422_2325);
    assert_eq!(cache_name("C:\\Photos\\A.jpg", 1234, 1700000000, 256), "9dc8a00f73f255c2.png");
    assert_ne!(cache_name("C:\\Photos\\A.jpg", 1234, 1700000000, 256), cache_name("C:\\Photos\\A.jpg", 1234, 1700000000, 128), "another size is another copy");
    assert_eq!(cache_name("c:\\photos\\a.jpg", 1234, 1700000000, 256), cache_name("C:\\PHOTOS\\A.JPG", 1234, 1700000000, 256));
}
