use push_server::data_struct::{Essay, EssayInfo};

#[test]
fn solve() {
    let ee = Essay::new(
        "121".to_owned(),
        "hoeelo".to_owned(),
        "date".to_owned(),
        vec!["categories1".to_string(), "c2".to_string()],
        vec!["tags".to_string(), "t.to_string()2".to_string()],
        "brief".to_owned(),
        "12e12\ndasd\n".to_owned(),
    );
    assert_eq!(ee.eid, "121");
    assert_eq!(ee.title, "hoeelo");
    assert_eq!(ee.date, "date");
    assert_eq!(ee.categories, vec!["categories1".to_string(), "c2".to_string()]);
    assert_eq!(ee.tags, vec!["tags".to_string(), "t.to_string()2".to_string()]);
    assert_eq!(ee.brief, "brief");
    assert_eq!(ee.content, "12e12\ndasd\n");
}

#[test]
fn essay_info_new_keeps_fields() {
    let info = EssayInfo::new(
        "e1".to_string(),
        "title".to_string(),
        "2023-01-02 03:04:05".to_string(),
        vec!["cat".to_string()],
        vec!["tag".to_string()],
        "short".to_string(),
    );
    assert_eq!(info.eid, "e1");
    assert_eq!(info.title, "title");
    assert_eq!(info.date, "2023-01-02 03:04:05");
    assert_eq!(info.categories, vec!["cat".to_string()]);
    assert_eq!(info.tags, vec!["tag".to_string()]);
    assert_eq!(info.brief, "short");
}

#[test]
fn essay_from_info_starts_with_empty_content() {
    let info = EssayInfo::new(
        "e1".to_string(),
        "title".to_string(),
        "2023-01-02 03:04:05".to_string(),
        vec!["cat".to_string()],
        vec!["tag".to_string()],
        "short".to_string(),
    );
    let essay = Essay::from(info);
    assert_eq!(essay.eid, "e1");
    assert_eq!(essay.title, "title");
    assert_eq!(essay.content, "");
}
