use gaiety::paths::{file_name_of, join_path, parent_of};
use gaiety::text::{decimal2_string, decimal_string, ends_with, join_strings, push_padded, replace_str, starts_with};

#[test]
fn path_parts() {
    assert_eq!(parent_of("/a/b").as_deref(), Some("/a"));
    assert_eq!(parent_of("/a").as_deref(), Some("/"));
    assert_eq!(parent_of("a").as_deref(), Some(""));
    assert_eq!(parent_of("./a").as_deref(), Some("."));
    assert_eq!(parent_of("/"), None);
    assert_eq!(file_name_of("/a/03_x").as_deref(), Some("03_x"));
    assert_eq!(file_name_of(""), None);
    assert_eq!(join_path("/a", "b"), "/a/b");
    assert_eq!(join_path("/a/", "b"), "/a/b");
    assert_eq!(join_path("", "b"), "b");
}

#[test]
fn text_helpers() {
    assert_eq!(replace_str("a'b''c", "'", "-"), "a-b--c");
    assert_eq!(replace_str("aaa", "aa", "b"), "ba");
    assert_eq!(join_strings(&vec!["a".to_string(), "b".to_string()], ", "), "a, b");
    assert_eq!(join_strings(&vec![], ", "), "");
    let mut s = String::from(">");
    push_padded(&mut s, "ab", 4);
    assert_eq!(s, ">ab  ");
    push_padded(&mut s, "long", 2);
    assert_eq!(s, ">ab  long");
    assert_eq!(decimal_string(0), "0");
    assert_eq!(decimal_string(4096), "4096");
    assert_eq!(decimal2_string(7), "07");
    assert_eq!(decimal2_string(42), "42");
    assert!(starts_with("abc", "ab") && !starts_with("abc", "b"));
    assert!(ends_with("x.plugin.zsh", ".zsh") && !ends_with("zsh", ".zsh"));
}
