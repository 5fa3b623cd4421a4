use wash::paths::{condense_path, expand_path, segments_of};

const HOME: &str = "/home/wash";

#[test]
fn expand_path_test() {
    assert_eq!(expand_path("~/Documents/scripts/", Some(HOME)), "/home/wash/Documents/scripts/");
    assert_eq!(expand_path("/etc/wash/", Some(HOME)), "/etc/wash/");
}

#[test]
fn condense_path_test() {
    assert_eq!(condense_path("/home/wash/Documents/scripts/", Some(HOME)), "~/Documents/scripts/");
    assert_eq!(condense_path("/home/", Some(HOME)), "/home/");
    assert_eq!(condense_path("/etc/wash/", Some(HOME)), "/etc/wash/");
}

#[test]
fn expand_path_edges() {
    assert_eq!(expand_path("~", Some(HOME)), "/home/wash");
    assert_eq!(expand_path("~/", Some("/home/wash/")), "/home/wash/");
    assert_eq!(expand_path("~//a", Some("/home/wash/")), "/home/wash/a");
    assert_eq!(expand_path("~/bin", None), "/bin");
    assert_eq!(expand_path("~wash/bin", Some(HOME)), "~wash/bin");
    assert_eq!(expand_path("a/~/b", Some(HOME)), "a/~/b");
}

#[test]
fn condense_path_edges() {
    assert_eq!(condense_path("/home/wash", Some(HOME)), "~");
    assert_eq!(condense_path("/home/washer/x", Some(HOME)), "/home/washer/x");
    assert_eq!(condense_path("/home//wash/x", Some(HOME)), "~/x");
    assert_eq!(condense_path("/home/wash/x", None), "/home/wash/x");
    assert_eq!(condense_path("home/wash/x", Some(HOME)), "home/wash/x");
}

#[test]
fn path_segments() {
    assert_eq!(segments_of("/a//b/"), vec!["a".to_string(), "b".to_string()]);
    assert!(segments_of("///").is_empty());
}

#[test]
fn condense_undoes_expand() {
    let e = expand_path("~//docs/a/", Some(HOME));
    assert_eq!(e, "/home/wash/docs/a/");
    assert_eq!(condense_path(&e, Some(HOME)), "~/docs/a/");
    let e = expand_path("~", Some("/"));
    assert_eq!(condense_path(&e, Some("/")), "~");
    let e = expand_path("~/x", Some("rel/home/"));
    assert_eq!(e, "rel/home/x");
    assert_eq!(condense_path(&e, Some("rel/home/")), "~/x");
}

#[test]
fn empty_home_reads_names_alone() {
    assert_eq!(expand_path("~/x/y", Some("")), "x/y");
    assert_eq!(expand_path("~", Some("")), "");
    let e = expand_path("~/docs/", Some(""));
    assert_eq!(e, "docs/");
    assert_eq!(condense_path(&e, Some("")), "~/docs/");
}
