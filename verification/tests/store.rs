use shopping::{App, DbItem, Store, StoreError};

fn item(date: &str, category: &str, description: &str, price: i64) -> DbItem {
    DbItem {
        id: 0,
        date: String::from(date),
        category: String::from(category),
        description: String::from(description),
        price,
    }
}

#[test]
fn insert_assigns_increasing_ids() {
    let mut s = Store::new();
    let a = s.insert_item(&item("2023-01-01", "a", "x", 100)).unwrap();
    let b = s.insert_item(&item("2023-01-02", "b", "y", 200)).unwrap();
    assert_eq!(a, 1);
    assert_eq!(b, 2);
    assert_eq!(s.records.len(), 2);
    assert_eq!(s.records[0].date, "2023-01-01");
    assert_eq!(s.records[1].price, 200);
}

#[test]
fn ids_are_never_reused_after_delete() {
    let mut s = Store::new();
    let a = s.insert_item(&item("2023-01-01", "a", "x", 100)).unwrap();
    s.delete_item(a).unwrap();
    let b = s.insert_item(&item("2023-01-02", "b", "y", 200)).unwrap();
    assert_ne!(a, b);
    assert_eq!(b, 2);
}

#[test]
fn update_overwrites_fields_in_place() {
    let mut s = Store::new();
    let a = s.insert_item(&item("2023-01-01", "a", "x", 100)).unwrap();
    let _b = s.insert_item(&item("2023-01-02", "b", "y", 200)).unwrap();
    s.update_item(a, &item("2023-06-15", "c", "z", 300)).unwrap();
    assert_eq!(s.records[0].id, a);
    assert_eq!(s.records[0].date, "2023-06-15");
    assert_eq!(s.records[0].category, "c");
    assert_eq!(s.records[0].description, "z");
    assert_eq!(s.records[0].price, 300);
    assert_eq!(s.records[1].category, "b");
}

#[test]
fn update_and_delete_missing_id_fail_not_found() {
    let mut s = Store::new();
    assert_eq!(s.update_item(7, &item("2023-01-01", "a", "x", 1)), Err(StoreError::NotFound));
    assert_eq!(s.delete_item(7), Err(StoreError::NotFound));
}

#[test]
fn distinct_lists_are_sorted_and_deduplicated() {
    let mut s = Store::new();
    s.insert_item(&item("2023-01-01", "b", "pear", 1)).unwrap();
    s.insert_item(&item("2023-01-02", "a", "apple", 2)).unwrap();
    s.insert_item(&item("2023-01-03", "a", "pear", 3)).unwrap();
    assert_eq!(s.select_categories(), vec![String::from("a"), String::from("b")]);
    assert_eq!(s.select_descriptions(), vec![String::from("apple"), String::from("pear")]);
}

#[test]
fn category_lookup_takes_earliest_record() {
    let mut s = Store::new();
    s.insert_item(&item("2023-01-01", "Dairy", "Milk", 1)).unwrap();
    s.insert_item(&item("2023-01-02", "Other", "Milk", 2)).unwrap();
    assert_eq!(s.select_category("Milk"), Some(String::from("Dairy")));
    assert_eq!(s.select_category("Bread"), None);
}

#[test]
fn resort_orders_by_date_and_is_idempotent() {
    let mut s = Store::new();
    let a = s.insert_item(&item("2023-03-01", "a", "x", 1)).unwrap();
    let b = s.insert_item(&item("2023-01-01", "b", "y", 2)).unwrap();
    let c = s.insert_item(&item("2023-02-01", "c", "z", 3)).unwrap();
    s.sort_items();
    assert_eq!(s.records.len(), 3);
    let order1: Vec<i64> = s.records.iter().map(|r| r.id).collect();
    assert_eq!(order1, vec![b, c, a]);
    assert_eq!(s.records[0].date, "2023-01-01");
    assert_eq!(s.records[1].date, "2023-02-01");
    assert_eq!(s.records[2].date, "2023-03-01");
    // field content preserved
    assert_eq!(s.records[0].description, "y");
    s.sort_items();
    let order2: Vec<i64> = s.records.iter().map(|r| r.id).collect();
    assert_eq!(order1, order2);
}

#[test]
fn resort_keeps_equal_dates_together() {
    let mut s = Store::new();
    let a = s.insert_item(&item("2023-02-01", "a", "x", 1)).unwrap();
    let b = s.insert_item(&item("2023-01-01", "b", "y", 2)).unwrap();
    let c = s.insert_item(&item("2023-02-01", "c", "z", 3)).unwrap();
    s.sort_items();
    let order: Vec<i64> = s.records.iter().map(|r| r.id).collect();
    assert_eq!(order, vec![b, a, c]);
}

#[test]
fn select_items_copies_everything() {
    let mut s = Store::new();
    s.insert_item(&item("2023-01-01", "a", "x", 100)).unwrap();
    let copy = s.select_items();
    assert_eq!(copy.len(), 1);
    assert_eq!(copy[0].description, "x");
}

#[test]
fn exhausted_id_space_fails_full() {
    let mut app = App::new();
    let loaded = vec![DbItem {
        id: i64::MAX - 1,
        date: String::from("2023-01-01"),
        category: String::from("a"),
        description: String::from("x"),
        price: 1,
    }];
    assert!(app.load_items(loaded));
    // the next fresh id would be i64::MAX, which is never handed out
    assert_eq!(
        app.store.insert_item(&item("2023-01-02", "b", "y", 2)),
        Err(StoreError::Full)
    );
    assert_eq!(app.store.records.len(), 1);
}

#[test]
fn find_index_by_id_matches_position() {
    let mut s = Store::new();
    let a = s.insert_item(&item("2023-01-01", "a", "x", 1)).unwrap();
    let b = s.insert_item(&item("2023-01-02", "b", "y", 2)).unwrap();
    assert_eq!(s.find_index_by_id(a), Some(0));
    assert_eq!(s.find_index_by_id(b), Some(1));
    assert_eq!(s.find_index_by_id(99), None);
}
