use wayfinder_core::strs::{find_str, split_str};

#[test]
fn strings_split_as_str_split_does() {
    assert_eq!(split_str("a / b / c", " / "), ["a", "b", "c"]);
    assert_eq!(split_str("a // b", "/"), ["a ", "", " b"]);
    assert_eq!(split_str("", ","), [""]);
    assert_eq!(split_str("aaa", "aa"), ["", "a"]);
    assert_eq!(find_str("https://x", "://"), Some(5));
    assert_eq!(find_str("abc", "abcd"), None);
    assert_eq!(find_str("abc", ""), Some(0));
}
