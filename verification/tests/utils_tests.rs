//! Slug and path-name utility tests.

use docket::utils::{normalised_path_ext, normalised_stem, path_or_default, prettify_dir, slugify,
    slugify_path};

#[test]
fn util_slugify_simple_strings() {
    assert_eq!("a", slugify("a"));
    assert_eq!("hello", slugify("hello"));
    assert_eq!("1000", slugify("1000"));
}

#[test]
fn utils_slugify_simple_strings() {
    assert_eq!("a", slugify("a"));
    assert_eq!("hello", slugify("hello"));
    assert_eq!("1000", slugify("1000"));
}

#[test]
fn util_slugify_replaces_space_characters() {
    assert_eq!("hello-world", slugify("hello world"));
    assert_eq!("foo-bar-baz", slugify("foo\tbar baz"));
}

#[test]
fn utils_slugify_replaces_space_characters() {
    assert_eq!("hello-world", slugify("hello world"));
    assert_eq!("foo-bar-baz", slugify("foo\tbar baz"));
}

#[test]
fn util_slufigy_replaces_url_punctuation() {
    assert_eq!("foo-bar", slugify("foo&bar"));
    assert_eq!("foo-bar", slugify("foo\"bar"));
    assert_eq!("foo-bar", slugify("foo?bar"));
    assert_eq!("foo-bar", slugify("foo=bar"));
}

#[test]
fn utils_slufigy_replaces_url_punctuation() {
    assert_eq!("foo-bar", slugify("foo&bar"));
    assert_eq!("foo-bar", slugify("foo\"bar"));
    assert_eq!("foo-bar", slugify("foo?bar"));
    assert_eq!("foo-bar", slugify("foo=bar"));
}

#[test]
fn util_slugify_replaces_path_components() {
    assert_eq!("yop-yop-yop", slugify("yop/yop\\yop"));
}

#[test]
fn utils_slugify_replaces_path_components() {
    assert_eq!("yop-yop-yop", slugify("yop/yop\\yop"));
}

#[test]
fn util_slugify_allows_unicode() {
    assert_eq!("€$§±*", slugify("€$§±*"));
    assert_eq!("ü¬é∆∂", slugify("ü¬é∆∂"));
}

#[test]
fn utils_slugify_allows_unicode() {
    assert_eq!("€$§±*", slugify("€$§±*"));
    assert_eq!("ü¬é∆∂", slugify("ü¬é∆∂"));
}

#[test]
fn util_slufigy_removes_leading_numbers() {
    assert_eq!("hello", slugify("01-hello"));
    assert_eq!("01a-foo", slugify("01a-foo"));
    assert_eq!("01a-foo", slugify("01a-foo"));
}

#[test]
fn utils_slufigy_removes_leading_numbers() {
    assert_eq!("hello", slugify("01-hello"));
    assert_eq!("01a-foo", slugify("01a-foo"));
    assert_eq!("01a-foo", slugify("01a-foo"));
}

#[test]
fn util_slugify_path_removes_extension() {
    assert_eq!("about", slugify_path("01-about.md"));
    assert_eq!("foo", slugify_path("foo.html"));
    assert_eq!("bar-baz", slugify_path("10-bar-baz"));
    assert_eq!("human2.0", slugify_path("human2.0.html"));
}

#[test]
fn utils_slugify_path_removes_extension() {
    assert_eq!("about", slugify_path("01-about.md"));
    assert_eq!("foo", slugify_path("foo.html"));
    assert_eq!("bar-baz", slugify_path("10-bar-baz"));
    assert_eq!("human2.0", slugify_path("human2.0.html"));
}

#[test]
fn util_slugify_path_removes_leading_path() {
    assert_eq!("world", slugify_path("hello/world.gif"));
    assert_eq!("e", slugify_path("a/b/c/cd/11-e.10"));
}

#[test]
fn utils_slugify_path_removes_leading_path() {
    assert_eq!("world", slugify_path("hello/world.gif"));
    assert_eq!("e", slugify_path("a/b/c/cd/11-e.10"));
}

#[test]
fn normalised_path_ext_no_ext() {
    assert_eq!(None, normalised_path_ext("/hello/world"));
    assert_eq!(None, normalised_path_ext("bar::"));
    assert_eq!(None, normalised_path_ext("../some_path/"));
}

#[test]
fn normalised_path_ext_returns_downcased_extension() {
    assert_eq!(Some(String::from("md")), normalised_path_ext("README.md"));
    assert_eq!(Some(String::from("rs")), normalised_path_ext("TEST.RS"));
}

#[test]
fn normalised_stem_no_stem() {
    assert_eq!(None, normalised_stem("../"));
}

#[test]
fn nromalised_stem_downcases_stem() {
    assert_eq!(Some(String::from("readme")), normalised_stem("README.md"));
    assert_eq!(Some(String::from("test")), normalised_stem("TEST.RS"));
    assert_eq!(Some(String::from("index")), normalised_stem("index.html"));
    assert_eq!(Some(String::from("world")), normalised_stem("../hello/../world/"));
    assert_eq!(Some(String::from(".config")), normalised_stem("/hello/.config.world/"));
}

#[test]
fn prettified_dirnames() {
    assert_eq!(Some("Hello World"), prettify_dir("Hello World").as_deref());
    assert_eq!(Some("Test"), prettify_dir("/this/is/a/Test").as_deref());
    assert_eq!(Some("Test"), prettify_dir("../another/Test/.").as_deref());
    assert_eq!(Some("Testing2"), prettify_dir("./futher/10-Testing2/").as_deref());
}

#[test]
fn mod_path_or_default_with_valid_argument() {
    let source = Some("/Users/foo/".to_owned());
    assert_eq!("/Users/foo/", path_or_default(source, "."));
}

#[test]
fn mod_path_or_default_without_argument() {
    let source = None;
    assert_eq!("baz/", path_or_default(source, "baz/"));
}

#[test]
fn utils_path_or_default_with_valid_argument() {
    let source = Some("/Users/foo/".to_owned());
    assert_eq!("/Users/foo/", path_or_default(source, "."));
}

#[test]
fn utils_path_or_default_without_argument() {
    let source = None;
    assert_eq!("baz/", path_or_default(source, "baz/"));
}
