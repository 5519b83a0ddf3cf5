use push_server::document::{join_lines, line_is_delimiter, split_front_matter};

fn lines(v: &[&str]) -> Vec<String> {
    v.iter().map(|s| s.to_string()).collect()
}

#[test]
fn delimiter_lines_are_recognized() {
    assert!(line_is_delimiter("---"));
    assert!(line_is_delimiter("  ---  "));
    assert!(line_is_delimiter("\t---\r"));
}

#[test]
fn non_delimiter_lines_are_rejected() {
    assert!(!line_is_delimiter(""));
    assert!(!line_is_delimiter("--"));
    assert!(!line_is_delimiter("----"));
    assert!(!line_is_delimiter("-- -"));
    assert!(!line_is_delimiter("---x"));
    assert!(!line_is_delimiter("text"));
}

#[test]
fn split_separates_frontmatter_from_body() {
    let doc = lines(&["---", "eid: a", "title: t", "---", "body one", "", "body two"]);
    let (fm, body) = split_front_matter(&doc);
    assert_eq!(fm, lines(&["eid: a", "title: t"]));
    assert_eq!(body, lines(&["body one", "", "body two"]));
}

#[test]
fn split_without_frontmatter_is_all_body() {
    let doc = lines(&["just", "text"]);
    let (fm, body) = split_front_matter(&doc);
    assert!(fm.is_empty());
    assert_eq!(body, lines(&["just", "text"]));
}

#[test]
fn join_inserts_single_newlines() {
    assert_eq!(join_lines(&lines(&["a", "b", ""])), "a\nb\n");
    assert_eq!(join_lines(&lines(&["only"])), "only");
    assert_eq!(join_lines(&lines(&[])), "");
}
