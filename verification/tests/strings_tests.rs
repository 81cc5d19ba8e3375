use phototools::strings::Strings;
use phototools::testtools::find_base_dir;

#[test]
fn test_truncate() {
    assert_eq!("foo", Strings::truncate_at_space("foo bar tar".to_string()));
    assert_eq!("foo", Strings::truncate_at_space("foo".to_string()));
    assert_eq!("", Strings::truncate_at_space("".to_string()));
}

#[test]
fn test_get_base_dir() {
    assert_eq!("/foo/bar/phototools/", find_base_dir("/foo/bar/phototools/exec", "phototools"));
    assert_eq!(
        "/foo/bar/phototools/",
        find_base_dir("/foo/bar/phototools/sub/sub/phototools-exec", "phototools")
    );
}

#[test]
fn truncate_at_keeps_prefix_before_first_hit() {
    assert_eq!("2019-04-27 14:08:01", Strings::truncate_at('.', "2019-04-27 14:08:01.00".to_string()));
    assert_eq!("", Strings::truncate_at('a', "abc".to_string()));
    assert_eq!("ab", Strings::truncate_at('c', "abc".to_string()));
}

#[test]
fn base_dir_without_match_is_empty() {
    assert_eq!("", find_base_dir("/foo/bar/baz", "phototools"));
    assert_eq!("", find_base_dir("", "phototools"));
}
