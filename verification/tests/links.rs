use std::path::PathBuf;

use mdx_engine::{first_n, Index, Link};

#[test]
fn link_joins_segments_into_a_url() {
    let link = Link::new(vec!["articles".to_string(), "intro.html".to_string()]);
    assert_eq!(link.to_url(), "articles/intro.html");
}

#[test]
fn link_with_one_segment_has_no_separator() {
    let link = Link::new(vec!["about.html".to_string()]);
    assert_eq!(link.to_url(), "about.html");
}

#[test]
fn link_without_segments_is_empty() {
    let link = Link::new(Vec::new());
    assert_eq!(link.to_url(), "");
}

#[test]
fn link_as_path_joins_segments() {
    let link = Link::new(vec!["articles".to_string(), "intro.html".to_string()]);
    let expected: PathBuf = ["articles", "intro.html"].iter().collect();
    assert_eq!(link.as_path(), expected);
}

#[test]
fn index_page_path_is_the_root_index_file() {
    let index = Index;
    assert_eq!(index.path().to_url(), "index.html");
}

#[test]
fn first_n_takes_a_prefix_of_characters() {
    assert_eq!(first_n("hello world", 5), "hello");
    assert_eq!(first_n("hi", 10), "hi");
    assert_eq!(first_n("", 3), "");
}
