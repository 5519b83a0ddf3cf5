use push_server::data_struct::Essay;
use push_server::error::Error;
use push_server::reconcile::{reconcile, sync_run, LoadedDoc, SourceDoc};
use push_server::store::CatalogueStore;

fn essay(eid: &str) -> Essay {
    Essay::new(
        eid.to_string(),
        format!("title of {}", eid),
        "2023-01-02 03:04:05".to_string(),
        vec!["cat".to_string()],
        vec!["tag".to_string()],
        format!("brief of {}", eid),
        format!("<p>{}</p>", eid),
    )
}

fn doc(eid: &str, modified: i64) -> SourceDoc {
    SourceDoc { essay: essay(eid), modified }
}

#[test]
fn unchanged_and_new_file() {
    // store has {A: t=100}; source has {A unchanged, B new}
    let mut store = CatalogueStore::new();
    store.insert_essay(&essay("A"), 100).unwrap();
    let docs = vec![doc("A", 100), doc("B", 150)];
    let report = reconcile(&mut store, &docs, 200).unwrap();
    assert_eq!(report.inserted, vec!["B".to_string()]);
    assert!(report.updated.is_empty());
    assert!(report.deleted.is_empty());
    assert!(report.failed.is_empty());
    // A was not mutated
    let times = store.query_essays_last_save_time();
    assert!(times.contains(&("A".to_string(), 100)));
    assert!(times.contains(&("B".to_string(), 200)));
}

#[test]
fn modified_and_vanished_file() {
    // store has {A: t=100, C: t=50}; source has {A: t=200}
    let mut store = CatalogueStore::new();
    store.insert_essay(&essay("A"), 100).unwrap();
    store.insert_essay(&essay("C"), 50).unwrap();
    let docs = vec![doc("A", 200)];
    let report = reconcile(&mut store, &docs, 300).unwrap();
    assert!(report.inserted.is_empty());
    assert_eq!(report.updated, vec!["A".to_string()]);
    assert_eq!(report.deleted, vec!["C".to_string()]);
    assert!(!store.contains_eid(&"C".to_string()));
    let times = store.query_essays_last_save_time();
    assert_eq!(times, vec![("A".to_string(), 300)]);
}

#[test]
fn equal_instant_is_untouched_and_newer_is_updated() {
    let mut store = CatalogueStore::new();
    store.insert_essay(&essay("A"), 100).unwrap();
    store.insert_essay(&essay("B"), 100).unwrap();
    let docs = vec![doc("A", 100), doc("B", 101)];
    let report = reconcile(&mut store, &docs, 500).unwrap();
    assert!(report.inserted.is_empty());
    assert_eq!(report.updated, vec!["B".to_string()]);
    assert!(report.deleted.is_empty());
}

#[test]
fn duplicate_eids_are_a_fatal_input_error() {
    let mut store = CatalogueStore::new();
    store.insert_essay(&essay("A"), 100).unwrap();
    let docs = vec![doc("B", 10), doc("B", 20)];
    assert!(matches!(reconcile(&mut store, &docs, 200), Err(Error::ConstraintViolation)));
    // nothing was mutated
    let times = store.query_essays_last_save_time();
    assert_eq!(times, vec![("A".to_string(), 100)]);
}

#[test]
fn second_run_over_unchanged_sources_is_a_no_op() {
    let mut store = CatalogueStore::new();
    store.insert_essay(&essay("A"), 100).unwrap();
    let docs = vec![doc("A", 150), doc("B", 150)];
    let first = reconcile(&mut store, &docs, 200).unwrap();
    assert_eq!(first.inserted, vec!["B".to_string()]);
    assert_eq!(first.updated, vec!["A".to_string()]);
    let second = reconcile(&mut store, &docs, 250).unwrap();
    assert!(second.inserted.is_empty());
    assert!(second.updated.is_empty());
    assert!(second.deleted.is_empty());
}

#[test]
fn one_malformed_document_does_not_block_the_others() {
    let mut store = CatalogueStore::new();
    let loaded = vec![
        LoadedDoc { path: "a.md".to_string(), parsed: Ok(doc("A", 10)) },
        LoadedDoc { path: "broken.md".to_string(), parsed: Err(Error::ParseError) },
        LoadedDoc { path: "b.md".to_string(), parsed: Ok(doc("B", 10)) },
    ];
    let report = sync_run(&mut store, loaded, 100).unwrap();
    assert_eq!(report.inserted, vec!["A".to_string(), "B".to_string()]);
    assert_eq!(report.failed, vec![("broken.md".to_string(), Error::ParseError)]);
    assert!(store.contains_eid(&"A".to_string()));
    assert!(store.contains_eid(&"B".to_string()));
    assert!(report.updated.is_empty());
    assert!(report.deleted.is_empty());
}
