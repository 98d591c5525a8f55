use datkit::paths::{split_lower, str_cmp, to_lower};

#[test]
fn split_normalizes_paths() {
    let parts = split_lower("./Art\\File1");
    assert_eq!(parts, vec!["art".to_string(), "file1".to_string()]);

    let parts = split_lower("a/b/c");
    assert_eq!(parts, vec!["a".to_string(), "b".to_string(), "c".to_string()]);

    // a trailing separator leaves an empty final segment
    let parts = split_lower("a/");
    assert_eq!(parts, vec!["a".to_string(), "".to_string()]);
}

#[test]
fn compare_orders_by_code_point() {
    assert_eq!(str_cmp("abc", "abd"), -1);
    assert_eq!(str_cmp("abc", "abc"), 0);
    assert_eq!(str_cmp("abd", "abc"), 1);
    assert_eq!(str_cmp("ab", "abc"), -1);
    assert_eq!(str_cmp("abc", "ab"), 1);
}

#[test]
fn lowercase_is_ascii_only() {
    assert_eq!(to_lower("MiXeD123"), "mixed123");
    assert_eq!(to_lower(""), "");
}
