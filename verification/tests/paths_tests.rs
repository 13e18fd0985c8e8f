use mdbook_drawio::paths::{relative_path, BookPath, PathError};

#[test]
fn relative_path_testing() {
    let path = "hello/world";
    let cur_p = "hello/world/blah/balh";

    let expected_result = BookPath::parse("../../");
    assert_eq!(
        relative_path(&BookPath::parse(path), &BookPath::parse(cur_p)).unwrap(),
        expected_result
    );

    let path = "hello/world/balh";
    let cur_p = "hello/world/blah/balh";

    let expected_result = BookPath::parse("../../balh");
    assert_eq!(
        relative_path(&BookPath::parse(path), &BookPath::parse(cur_p)).unwrap(),
        expected_result
    );

    let path = "hello/world/balh/jojo/bizaar";
    let cur_p = "hello/world/blah/balh";

    let expected_result = BookPath::parse("../../balh/jojo/bizaar");
    assert_eq!(
        relative_path(&BookPath::parse(path), &BookPath::parse(cur_p)).unwrap(),
        expected_result
    );

    let path = "hello/jojo/bizaar";
    let cur_p = "hello/world/blah/balh";

    let expected_result = BookPath::parse("../../../jojo/bizaar");
    assert_eq!(
        relative_path(&BookPath::parse(path), &BookPath::parse(cur_p)).unwrap(),
        expected_result
    );

    let path = "jojo/hello";
    let cur_p = "hello/world/blah/balh";

    let expected_result = BookPath::parse("../../../../jojo/hello");
    assert_eq!(
        relative_path(&BookPath::parse(path), &BookPath::parse(cur_p)).unwrap(),
        expected_result
    );
}

#[test]
fn parse_cleans_dot_and_dotdot() {
    assert_eq!(BookPath::parse("a/./b/../c"), BookPath::parse("a/c"));
    assert_eq!(BookPath::parse("./blah"), BookPath::parse("blah"));
    assert_eq!(BookPath::parse("a//b/"), BookPath::parse("a/b"));
    assert_eq!(BookPath::parse("a/../.."), BookPath::parse(".."));
    assert_eq!(BookPath::parse("/a/../.."), BookPath::parse("/"));
    assert_eq!(BookPath::parse("."), BookPath::parse(""));
    assert_ne!(BookPath::parse("/a"), BookPath::parse("a"));
}

#[test]
fn parse_trailing_slash_is_canonical() {
    assert_eq!(BookPath::parse("../../"), BookPath::parse("../.."));
}

#[test]
fn join_and_parent() {
    let a = BookPath::parse("src/ch1");
    let b = BookPath::parse("../img/pic");
    assert_eq!(a.join(&b), BookPath::parse("src/img/pic"));
    assert_eq!(a.join(&BookPath::parse("/abs")), BookPath::parse("/abs"));
    assert_eq!(a.parent(), BookPath::parse("src"));
    assert_eq!(BookPath::parse("").parent(), BookPath::parse(""));
}

#[test]
fn to_string_prints_canonical_form() {
    assert_eq!(BookPath::parse("a/./b/../c").to_string(), "a/c");
    assert_eq!(BookPath::parse("/x/y").to_string(), "/x/y");
    assert_eq!(BookPath::parse("").to_string(), ".");
    assert_eq!(BookPath::parse("/").to_string(), "/");
}

#[test]
fn relative_path_rejects_mixed_absoluteness() {
    let r = relative_path(&BookPath::parse("/a/b"), &BookPath::parse("a"));
    assert_eq!(r, Err(PathError::InvalidPath));
}

#[test]
fn relative_path_of_equal_paths_is_empty() {
    let p = BookPath::parse("a/b");
    assert_eq!(relative_path(&p, &p).unwrap(), BookPath::parse("."));
}
