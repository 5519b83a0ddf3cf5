use push_server::content::{Essay, EssayAmb, Essays};

fn amb(date: &str, title: &str) -> EssayAmb {
    EssayAmb {
        title: title.to_string(),
        date: date.to_string(),
        categories: vec!["c".to_string()],
        tags: vec!["t".to_string()],
        excerpt: "x".to_string(),
        priority: 0,
    }
}

#[test]
fn get_unix_parses_the_catalogue_date_format() {
    let e = Essay::from(amb("2023-01-02 03:04:05", "a"), "body");
    // 2023-01-02 03:04:05 at +08:00 is 2023-01-01 19:04:05 UTC
    assert_eq!(e.get_unix(), 1672599845);
    assert_eq!(e.try_get_unix(), Some(1672599845));
}

#[test]
fn try_get_unix_rejects_malformed_dates() {
    let e = Essay::from(amb("not a date", "a"), "body");
    assert_eq!(e.try_get_unix(), None);
    let e2 = Essay::from(amb("2023-13-40 99:99:99", "a"), "body");
    assert_eq!(e2.try_get_unix(), None);
}

#[test]
fn essays_iterate_in_date_order() {
    let mut es = Essays::new();
    es.add_essay(Essay::from(amb("2023-05-01 00:00:00", "later"), "b"));
    es.add_essay(Essay::from(amb("2023-01-01 00:00:00", "earlier"), "a"));
    let entries = es.iter();
    assert_eq!(entries.len(), 2);
    assert!(entries[0].0 < entries[1].0);
    assert_eq!(entries[0].1.amb.title, "earlier");
    assert_eq!(entries[1].1.amb.title, "later");
}

#[test]
fn essays_replace_an_entry_with_the_same_instant() {
    let mut es = Essays::new();
    es.add_essay(Essay::from(amb("2023-01-01 00:00:00", "first"), "a"));
    es.add_essay(Essay::from(amb("2023-01-01 00:00:00", "second"), "b"));
    let entries = es.iter();
    assert_eq!(entries.len(), 1);
    assert_eq!(entries[0].1.amb.title, "second");
}

#[test]
fn essays_delete_by_instant() {
    let mut es = Essays::new();
    let e = Essay::from(amb("2023-01-01 00:00:00", "a"), "x");
    let key = e.get_unix();
    es.add_essay(e);
    es.del_essay(key);
    assert_eq!(es.iter().len(), 0);
    // deleting an absent instant is a no-op
    es.del_essay(key);
    assert_eq!(es.iter().len(), 0);
}
