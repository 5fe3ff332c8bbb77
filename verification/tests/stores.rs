use vocab_store::StoreError;
use vocab_store::activity::ActivityStore;
use vocab_store::word::VocabStore;

fn add_simple(store: &mut VocabStore, term: &str) {
    store.add(
        term.to_string(),
        format!("meaning of {}", term),
        format!("translation of {}", term),
        "noun".to_string(),
        None,
    );
}

#[test]
fn ids_run_one_two_three_in_call_order() {
    let mut store = VocabStore::new();
    add_simple(&mut store, "alpha");
    add_simple(&mut store, "beta");
    add_simple(&mut store, "gamma");
    let words = store.list();
    let ids: Vec<u32> = words.iter().map(|w| w.id).collect();
    assert_eq!(ids, vec![1, 2, 3]);
    assert_eq!(store.generate_id(), 4);
}

#[test]
fn generate_id_from_last_element_not_maximum() {
    let mut store = VocabStore::new();
    add_simple(&mut store, "alpha");
    add_simple(&mut store, "beta");
    add_simple(&mut store, "gamma");
    // removing the middle entry leaves [1, 3]; the next id follows the last
    store.delete(2);
    assert_eq!(store.generate_id(), 4);
    // removing the last entry leaves [1]; the next id follows the new last
    let mut store2 = VocabStore::new();
    add_simple(&mut store2, "alpha");
    add_simple(&mut store2, "beta");
    store2.delete(2);
    assert_eq!(store2.generate_id(), 2);
}

#[test]
fn delete_then_get_by_id_is_not_found() {
    let mut store = VocabStore::new();
    add_simple(&mut store, "alpha");
    add_simple(&mut store, "beta");
    store.delete(1);
    assert_eq!(store.get_by_id(1).unwrap_err(), StoreError::NotFound);
    assert_eq!(store.get_by_id(2).unwrap().vocabulary, "beta");
}

#[test]
fn delete_of_absent_id_is_a_silent_no_op() {
    let mut store = VocabStore::new();
    add_simple(&mut store, "alpha");
    store.delete(42);
    assert_eq!(store.list().len(), 1);
}

#[test]
fn update_replaces_every_field_but_the_id() {
    let mut store = VocabStore::new();
    add_simple(&mut store, "alpha");
    add_simple(&mut store, "beta");
    let r = store.update(
        1,
        "walk".to_string(),
        "(verb) move on foot".to_string(),
        "marcher".to_string(),
        "verb".to_string(),
        Some("I walk to work.".to_string()),
    );
    assert!(r.is_ok());
    let w = store.get_by_id(1).unwrap();
    assert_eq!(w.id, 1);
    assert_eq!(w.vocabulary, "walk");
    assert_eq!(w.meaning, "(verb) move on foot");
    assert_eq!(w.translate, "marcher");
    assert_eq!(w.category, "verb");
    assert_eq!(w.example.as_deref(), Some("I walk to work."));
    // the other entry is untouched
    let other = store.get_by_id(2).unwrap();
    assert_eq!(other.vocabulary, "beta");
}

#[test]
fn update_of_missing_id_reports_not_found_and_changes_nothing() {
    let mut store = VocabStore::new();
    add_simple(&mut store, "alpha");
    let before = store.list();
    let r = store.update(
        9,
        "x".to_string(),
        "y".to_string(),
        "z".to_string(),
        "c".to_string(),
        None,
    );
    assert_eq!(r.unwrap_err(), StoreError::NotFound);
    let after = store.list();
    assert_eq!(before.len(), after.len());
    assert_eq!(before[0].vocabulary, after[0].vocabulary);
    assert_eq!(before[0].id, after[0].id);
}

#[test]
fn upsert_add_twice_merges_into_one_entry_with_add_two() {
    let mut store = ActivityStore::new();
    assert!(store.upsert("2024-01-01".to_string(), "add").is_ok());
    assert!(store.upsert("2024-01-01".to_string(), "add").is_ok());
    let dates = store.list();
    assert_eq!(dates.len(), 1);
    assert_eq!(dates[0].date, "2024-01-01");
    assert_eq!(dates[0].add, 2);
    assert_eq!(dates[0].update, 0);
    assert_eq!(dates[0].quiz, None);
}

#[test]
fn upsert_on_a_fresh_day_inserts_the_default_record() {
    // a first non-quiz event on a day inserts add=1, update=0, quiz absent
    let mut store = ActivityStore::new();
    assert!(store.upsert("2024-01-01".to_string(), "update").is_ok());
    let dates = store.list();
    assert_eq!(dates.len(), 1);
    assert_eq!(dates[0].add, 1);
    assert_eq!(dates[0].update, 0);
    assert_eq!(dates[0].quiz, None);
}

#[test]
fn upsert_quiz_on_a_fresh_day_starts_the_counter_at_one() {
    // a day's first quiz event is not an error and not dropped: the inserted
    // record carries the insert default add=1 and quiz started at 1
    let mut store = ActivityStore::new();
    assert!(store.upsert("2024-01-01".to_string(), "quiz").is_ok());
    let dates = store.list();
    assert_eq!(dates.len(), 1);
    assert_eq!(dates[0].add, 1);
    assert_eq!(dates[0].update, 0);
    assert_eq!(dates[0].quiz, Some(1));
}

#[test]
fn upsert_quiz_on_existing_day_starts_the_counter_at_one() {
    let mut store = ActivityStore::new();
    assert!(store.upsert("2024-01-01".to_string(), "add").is_ok());
    assert!(store.upsert("2024-01-01".to_string(), "quiz").is_ok());
    assert!(store.upsert("2024-01-01".to_string(), "quiz").is_ok());
    assert!(store.upsert("2024-01-01".to_string(), "update").is_ok());
    let dates = store.list();
    assert_eq!(dates.len(), 1);
    assert_eq!(dates[0].add, 1);
    assert_eq!(dates[0].update, 1);
    assert_eq!(dates[0].quiz, Some(2));
}

#[test]
fn upsert_with_unknown_mode_reports_invalid_argument_and_changes_nothing() {
    let mut store = ActivityStore::new();
    assert!(store.upsert("2024-01-01".to_string(), "add").is_ok());
    let r = store.upsert("2024-01-01".to_string(), "bogus");
    assert_eq!(r.unwrap_err(), StoreError::InvalidArgument);
    let r2 = store.upsert("2024-02-02".to_string(), "bogus");
    assert_eq!(r2.unwrap_err(), StoreError::InvalidArgument);
    let dates = store.list();
    assert_eq!(dates.len(), 1);
    assert_eq!(dates[0].add, 1);
}

#[test]
fn upsert_keeps_separate_days_separate() {
    let mut store = ActivityStore::new();
    assert!(store.upsert("2024-01-01".to_string(), "add").is_ok());
    assert!(store.upsert("2024-01-02".to_string(), "add").is_ok());
    let dates = store.list();
    assert_eq!(dates.len(), 2);
    assert_eq!(dates[0].date, "2024-01-01");
    assert_eq!(dates[1].date, "2024-01-02");
}

#[test]
fn record_add_today_counts_one_add_for_some_day() {
    let mut store = ActivityStore::new();
    store.record_add_today();
    let dates = store.list();
    assert_eq!(dates.len(), 1);
    assert_eq!(dates[0].add, 1);
    assert_eq!(dates[0].update, 0);
    assert_eq!(dates[0].quiz, None);
    store.record_add_today();
    let dates = store.list();
    assert_eq!(dates.len(), 1);
    assert_eq!(dates[0].add, 2);
}

#[test]
fn end_to_end_word_lifecycle_keeps_day_counters() {
    let mut words = VocabStore::new();
    let mut activity = ActivityStore::new();
    // add one word, as the add command does, recording the day's activity
    words.add(
        "run".to_string(),
        "(verb) move fast".to_string(),
        "courir".to_string(),
        "verb".to_string(),
        None,
    );
    let listed = words.list();
    assert_eq!(listed.len(), 1);
    assert_eq!(listed[0].id, 1);
    assert!(activity.upsert("2024-05-05".to_string(), "add").is_ok());
    let dates = activity.list();
    assert_eq!(dates.len(), 1);
    assert_eq!(dates[0].add, 1);
    // deleting the word does not roll the day counter back
    words.delete(1);
    assert_eq!(words.list().len(), 0);
    let dates = activity.list();
    assert_eq!(dates.len(), 1);
    assert_eq!(dates[0].add, 1);
}
