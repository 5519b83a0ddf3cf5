use push_server::data_struct::Essay;
use push_server::error::Error;
use push_server::store::CatalogueStore;

fn essay(eid: &str, tags: &[&str], categories: &[&str]) -> Essay {
    Essay::new(
        eid.to_string(),
        format!("title of {}", eid),
        "2023-01-02 03:04:05".to_string(),
        categories.iter().map(|s| s.to_string()).collect(),
        tags.iter().map(|s| s.to_string()).collect(),
        format!("brief of {}", eid),
        format!("<p>content of {}</p>", eid),
    )
}

#[test]
fn insert_then_query_round_trip() {
    let mut store = CatalogueStore::new();
    store.insert_essay(&essay("a", &["rust", "verus"], &["tech"]), 100).unwrap();
    assert!(store.contains_eid(&"a".to_string()));
    assert_eq!(
        store.query_essay_content(&"a".to_string()),
        Some("<p>content of a</p>".to_string())
    );
    assert_eq!(
        store.query_essay_tags(&"a".to_string()),
        vec!["rust".to_string(), "verus".to_string()]
    );
    assert_eq!(store.query_essay_categories(&"a".to_string()), vec!["tech".to_string()]);
    let info = store.query_essay_info_from_eid(&"a".to_string()).unwrap();
    assert_eq!(info.eid, "a");
    assert_eq!(info.title, "title of a");
    assert_eq!(info.tags, vec!["rust".to_string(), "verus".to_string()]);
    let all = store.query_essay_info();
    assert_eq!(all.len(), 1);
    assert_eq!(all[0].eid, "a");
}

#[test]
fn insert_existing_eid_is_a_constraint_violation() {
    let mut store = CatalogueStore::new();
    store.insert_essay(&essay("a", &[], &[]), 100).unwrap();
    assert_eq!(store.insert_essay(&essay("a", &[], &[]), 200), Err(Error::ConstraintViolation));
    // the failed insert left the store unchanged
    let times = store.query_essays_last_save_time();
    assert_eq!(times, vec![("a".to_string(), 100)]);
}

#[test]
fn update_absent_eid_is_not_found() {
    let mut store = CatalogueStore::new();
    assert_eq!(store.update_essay(&essay("ghostly", &[], &[]), 100), Err(Error::NotFound));
}

#[test]
fn update_replaces_associations_wholly() {
    let mut store = CatalogueStore::new();
    store.insert_essay(&essay("a", &["old1", "old2"], &["catold"]), 100).unwrap();
    store.update_essay(&essay("a", &["old2", "new1"], &["catnew"]), 200).unwrap();
    // exactly the current source-declared sets, no stale rows
    assert_eq!(
        store.query_essay_tags(&"a".to_string()),
        vec!["old2".to_string(), "new1".to_string()]
    );
    assert_eq!(store.query_essay_categories(&"a".to_string()), vec!["catnew".to_string()]);
    // the dictionary keeps the orphaned names: entries are never deleted
    assert_eq!(store.tag_set.names.len(), 3);
    assert_eq!(store.category_set.names.len(), 2);
}

#[test]
fn shared_new_tag_creates_one_dictionary_row() {
    let mut store = CatalogueStore::new();
    store.insert_essay(&essay("a", &["shared", "only-a"], &["c"]), 100).unwrap();
    store.insert_essay(&essay("b", &["shared"], &["c"]), 100).unwrap();
    store.insert_essay(&essay("c", &["shared"], &["c"]), 100).unwrap();
    assert_eq!(store.tag_set.names, vec!["shared".to_string(), "only-a".to_string()]);
    assert_eq!(store.category_set.names, vec!["c".to_string()]);
}

#[test]
fn delete_removes_record_and_associations() {
    let mut store = CatalogueStore::new();
    store.insert_essay(&essay("a", &["t1"], &["c1"]), 100).unwrap();
    store.insert_essay(&essay("b", &["t1"], &["c1"]), 100).unwrap();
    store.delete_essay(&"a".to_string());
    assert!(!store.contains_eid(&"a".to_string()));
    assert!(store.query_essay_tags(&"a".to_string()).is_empty());
    // the other essay and the dictionaries are untouched
    assert!(store.contains_eid(&"b".to_string()));
    assert_eq!(store.query_essay_tags(&"b".to_string()), vec!["t1".to_string()]);
    assert_eq!(store.tag_set.names, vec!["t1".to_string()]);
    // deleting again is a safe no-op
    store.delete_essay(&"a".to_string());
    assert!(!store.contains_eid(&"a".to_string()));
}

#[test]
fn queries_by_tag_and_category() {
    let mut store = CatalogueStore::new();
    store.insert_essay(&essay("a", &["shared", "only-a"], &["cat1"]), 100).unwrap();
    store.insert_essay(&essay("b", &["shared"], &["cat2"]), 100).unwrap();
    let by_tag = store.query_essays_info_from_tag(&"shared".to_string()).unwrap();
    assert_eq!(by_tag.len(), 2);
    assert_eq!(by_tag[0].eid, "a");
    assert_eq!(by_tag[1].eid, "b");
    let by_cat = store.query_essays_from_category(&"cat2".to_string()).unwrap();
    assert_eq!(by_cat.len(), 1);
    assert_eq!(by_cat[0].eid, "b");
    assert!(matches!(
        store.query_essays_info_from_tag(&"unknown".to_string()),
        Err(Error::NotFound)
    ));
    assert!(matches!(
        store.query_essays_from_category(&"unknown".to_string()),
        Err(Error::NotFound)
    ));
    assert!(store.get_tag_id_from_name(&"shared".to_string()).is_ok());
    assert_eq!(store.get_category_id_from_name(&"nope".to_string()), Err(Error::NotFound));
}
