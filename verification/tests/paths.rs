use mkcdoc::paths::{extension_of, is_c_source, is_header, is_markdown, path_within};

fn ext(p: &str) -> Option<String> {
    extension_of(p).map(|v| v.into_iter().collect())
}

#[test]
fn extension_is_text_after_the_last_dot_of_the_file_name() {
    assert_eq!(ext("src/mathutil.c"), Some("c".to_string()));
    assert_eq!(ext("archive.tar.gz"), Some("gz".to_string()));
    assert_eq!(ext("dir.d/file"), None);
    assert_eq!(ext(".bashrc"), None);
    assert_eq!(ext("a/b.h/"), Some("h".to_string()));
    assert_eq!(ext("name."), Some("".to_string()));
    assert_eq!(ext("a/.."), None);
    assert_eq!(ext("/"), None);
    assert_eq!(ext(""), None);
}

#[test]
fn recognises_c_sources_and_markdown_pages() {
    assert!(is_c_source("src/point.c"));
    assert!(is_c_source("include/point.h"));
    assert!(!is_c_source("src/point.cpp"));
    assert!(!is_c_source("README"));
    assert!(is_header("include/point.h"));
    assert!(!is_header("src/point.c"));
    assert!(is_markdown("content/guide/install.md"));
    assert!(!is_markdown("content/logo.png"));
    assert!(!is_markdown("content/.md"));
}

#[test]
fn path_within_compares_whole_components() {
    assert!(path_within("/srv/site", "/srv/site/index.html"));
    assert!(path_within("/srv/site", "/srv/site"));
    assert!(path_within("/srv/site/", "/srv/site/./a//b"));
    assert!(!path_within("/srv/site", "/srv/sitemap.xml"));
    assert!(!path_within("/srv/site", "/srv"));
    assert!(!path_within("/srv/site", "srv/site/index.html"));
    assert!(!path_within("/srv/site", "/srv/other/../site/x"));
}
