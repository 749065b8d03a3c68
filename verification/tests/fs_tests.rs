use sb::fs::parent_of_str;
use sb::resolve_link;

#[test]
fn resolve_link_joins_relative_links() {
    assert_eq!(resolve_link("/docs/readme.md", "img.png"), "/docs/img.png");
    assert_eq!(
        resolve_link("/docs/guide/ch1.md", "../intro.md"),
        "/docs/guide/../intro.md"
    );
}

#[test]
fn resolve_link_keeps_absolute_links() {
    assert_eq!(resolve_link("/docs/readme.md", "/img/logo.png"), "/img/logo.png");
}

#[test]
fn resolve_link_with_bare_file_name() {
    // A file with no directory: the link resolves beside it.
    assert_eq!(resolve_link("readme.md", "img.png"), "img.png");
}

#[test]
fn resolve_link_at_the_root() {
    assert_eq!(resolve_link("/readme.md", "img.png"), "/img.png");
}

#[test]
fn resolve_link_with_empty_current_file() {
    assert_eq!(resolve_link("", "img.png"), "./img.png");
}

#[test]
fn parent_of_nested_path() {
    assert_eq!(parent_of_str("/test/path"), Some("/test"));
    assert_eq!(parent_of_str("/a/b/c"), Some("/a/b"));
}

#[test]
fn trailing_separators_are_ignored() {
    // As with std's Path::parent, "a/b/" has parent "a", not "a/b".
    assert_eq!(parent_of_str("a/b/"), Some("a"));
    assert_eq!(parent_of_str("/a/b//"), Some("/a"));
    assert_eq!(parent_of_str("/docs/"), Some("/"));
    assert_eq!(parent_of_str("//"), None);
    assert_eq!(resolve_link("a/b/", "x"), "a/x");
    assert_eq!(resolve_link("/docs/", "img.png"), "/img.png");
}

#[test]
fn parent_of_root_child_is_root() {
    assert_eq!(parent_of_str("/etc"), Some("/"));
}

#[test]
fn parent_of_bare_name_is_empty() {
    assert_eq!(parent_of_str("name"), Some(""));
}

#[test]
fn root_and_empty_have_no_parent() {
    assert_eq!(parent_of_str("/"), None);
    assert_eq!(parent_of_str(""), None);
}
