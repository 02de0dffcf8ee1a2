use shopping::{App, AppState, DbItem, NavOp};

/// Drives a whole entry through the wizard: date, description, category,
/// price. Ends in `InsertDescription`, ready for the next entry.
fn enter(app: &mut App, date: &str, description: &str, category: &str, price: &str) {
    assert_eq!(app.state, AppState::Browse);
    app.begin_insert(String::from(date));
    assert_eq!(app.state, AppState::InsertDate);
    app.confirm().unwrap();
    assert_eq!(app.state, AppState::InsertDescription);
    app.set_buffer(String::from(description));
    app.confirm().unwrap();
    assert_eq!(app.state, AppState::InsertCategory);
    app.set_buffer(String::from(category));
    app.confirm().unwrap();
    assert_eq!(app.state, AppState::InsertPrice);
    app.set_buffer(String::from(price));
    app.confirm().unwrap();
    assert_eq!(app.state, AppState::InsertDescription);
    app.escape();
}

#[test]
fn creating_adds_one_record_and_returns_to_description() {
    let mut app = App::new();
    app.begin_insert(String::from("2023-04-01"));
    app.confirm().unwrap();
    app.set_buffer(String::from("Milk"));
    app.confirm().unwrap();
    app.set_buffer(String::from("Dairy"));
    app.confirm().unwrap();
    assert_eq!(app.store.records.len(), 0);
    app.set_buffer(String::from("3.50"));
    app.confirm().unwrap();
    // count +1, back to the description step for rapid entry
    assert_eq!(app.store.records.len(), 1);
    assert_eq!(app.state, AppState::InsertDescription);
    let r = &app.store.records[0];
    assert_eq!(r.date, "2023-04-01");
    assert_eq!(r.description, "Milk");
    assert_eq!(r.category, "Dairy");
    assert_eq!(r.price, 350);
    assert_eq!(app.table_sel, Some(0));
    // the committed date is kept for the next consecutive entry
    app.set_buffer(String::from("Eggs"));
    app.confirm().unwrap();
    app.set_buffer(String::from("Dairy"));
    app.confirm().unwrap();
    app.set_buffer(String::from("2.00"));
    app.confirm().unwrap();
    assert_eq!(app.store.records.len(), 2);
    assert_eq!(app.store.records[1].date, "2023-04-01");
}

#[test]
fn editing_updates_in_place_and_returns_to_browse() {
    let mut app = App::new();
    enter(&mut app, "2023-04-01", "Milk", "Dairy", "3.50");
    assert_eq!(app.state, AppState::Browse);
    app.navigate(NavOp::Home);
    app.begin_edit();
    assert_eq!(app.state, AppState::InsertDate);
    // each step comes prefilled from the edited record
    assert_eq!(app.get_text(), "2023-04-01");
    app.set_buffer(String::from("2023-05-02"));
    app.confirm().unwrap();
    assert_eq!(app.get_text(), "Milk");
    app.confirm().unwrap();
    assert_eq!(app.get_text(), "Dairy");
    app.set_buffer(String::from("Groceries"));
    app.confirm().unwrap();
    assert_eq!(app.get_text(), "3.50");
    app.set_buffer(String::from("4.25"));
    app.confirm().unwrap();
    // count unchanged, back to browsing, template gone
    assert_eq!(app.state, AppState::Browse);
    assert_eq!(app.store.records.len(), 1);
    assert!(app.item_template.is_none());
    let r = &app.store.records[0];
    assert_eq!(r.date, "2023-05-02");
    assert_eq!(r.description, "Milk");
    assert_eq!(r.category, "Groceries");
    assert_eq!(r.price, 425);
    assert_eq!(app.table_sel, Some(0));
}

#[test]
fn invalid_date_blocks_confirm_but_keeps_buffer() {
    let mut app = App::new();
    app.begin_insert(String::from("not-a-date"));
    assert!(!app.is_valid());
    app.confirm().unwrap();
    // still at the date step, buffer untouched
    assert_eq!(app.state, AppState::InsertDate);
    assert_eq!(app.get_text(), "not-a-date");
    app.set_buffer(String::from("2023-04-01"));
    assert!(app.is_valid());
    app.confirm().unwrap();
    assert_eq!(app.state, AppState::InsertDescription);
}

#[test]
fn invalid_price_blocks_confirm() {
    let mut app = App::new();
    app.begin_insert(String::from("2023-04-01"));
    app.confirm().unwrap();
    app.set_buffer(String::from("Milk"));
    app.confirm().unwrap();
    app.confirm().unwrap();
    assert_eq!(app.state, AppState::InsertPrice);
    app.set_buffer(String::from("1.2.3"));
    assert!(!app.is_valid());
    app.confirm().unwrap();
    assert_eq!(app.state, AppState::InsertPrice);
    assert_eq!(app.store.records.len(), 0);
}

#[test]
fn empty_date_or_description_aborts_to_browse() {
    let mut app = App::new();
    app.begin_insert(String::from(""));
    app.confirm().unwrap();
    assert_eq!(app.state, AppState::Browse);
    assert_eq!(app.store.records.len(), 0);

    app.begin_insert(String::from("2023-04-01"));
    app.confirm().unwrap();
    app.set_buffer(String::from("   "));
    app.confirm().unwrap();
    assert_eq!(app.state, AppState::Browse);
    assert_eq!(app.store.records.len(), 0);
}

#[test]
fn empty_category_is_allowed() {
    let mut app = App::new();
    app.begin_insert(String::from("2023-04-01"));
    app.confirm().unwrap();
    app.set_buffer(String::from("Milk"));
    app.confirm().unwrap();
    assert_eq!(app.state, AppState::InsertCategory);
    app.confirm().unwrap();
    assert_eq!(app.state, AppState::InsertPrice);
    app.set_buffer(String::from("1.00"));
    app.confirm().unwrap();
    assert_eq!(app.store.records[0].category, "");
}

#[test]
fn escape_from_any_state_clears_everything() {
    let mut app = App::new();
    enter(&mut app, "2023-04-01", "Milk", "Dairy", "3.50");
    // escape from deep inside an edit
    app.navigate(NavOp::Home);
    app.begin_edit();
    app.confirm().unwrap();
    app.confirm().unwrap();
    assert_eq!(app.state, AppState::InsertCategory);
    assert!(app.item_template.is_some());
    app.escape();
    assert_eq!(app.state, AppState::Browse);
    assert!(app.item_template.is_none());
    assert_eq!(app.get_text(), "");
    assert_eq!(app.history.len(), 0);
    // the store is untouched by the abort
    assert_eq!(app.store.records.len(), 1);
    assert_eq!(app.store.records[0].price, 350);
}

#[test]
fn transition_to_same_state_changes_nothing() {
    let mut app = App::new();
    enter(&mut app, "2023-04-01", "Milk", "Dairy", "3.50");
    app.navigate(NavOp::Home);
    app.begin_edit();
    app.confirm().unwrap();
    assert_eq!(app.state, AppState::InsertDescription);
    let buffer_before = String::from(app.get_text());
    let sel_before = app.list_sel;
    let hist_before = app.history.clone();
    app.transition(AppState::InsertDescription);
    assert_eq!(app.state, AppState::InsertDescription);
    assert_eq!(app.get_text(), buffer_before);
    assert_eq!(app.list_sel, sel_before);
    assert_eq!(app.history, hist_before);
    assert!(app.item_template.is_some());
}

#[test]
fn autofill_category_from_matching_description() {
    let mut app = App::new();
    enter(&mut app, "2023-04-01", "Milk", "Dairy", "3.50");
    app.begin_insert(String::from("2023-04-02"));
    app.confirm().unwrap();
    app.set_buffer(String::from("Milk"));
    app.confirm().unwrap();
    assert_eq!(app.state, AppState::InsertCategory);
    assert_eq!(app.get_text(), "Dairy");
    app.escape();

    // no match leaves the category empty
    app.begin_insert(String::from("2023-04-02"));
    app.confirm().unwrap();
    app.set_buffer(String::from("Bread"));
    app.confirm().unwrap();
    assert_eq!(app.get_text(), "");
}

#[test]
fn history_filters_by_prefix_with_auto_selection() {
    let mut app = App::new();
    enter(&mut app, "2023-04-01", "Milk", "Dairy", "3.50");
    enter(&mut app, "2023-04-01", "Milk Chocolate", "Snacks", "2.00");
    app.begin_insert(String::from("2023-04-02"));
    app.confirm().unwrap();
    assert_eq!(app.state, AppState::InsertDescription);
    app.set_buffer(String::from("Milk"));
    assert_eq!(app.history.len(), 2);
    assert_eq!(app.list_sel, None);
    app.set_buffer(String::from("Milk C"));
    assert_eq!(app.history, vec![String::from("Milk Chocolate")]);
    assert_eq!(app.list_sel, Some(0));
    // accepting the suggestion replaces the buffer wholesale
    app.accept_suggestion();
    assert_eq!(app.get_text(), "Milk Chocolate");
}

#[test]
fn history_navigation_and_tab() {
    let mut app = App::new();
    enter(&mut app, "2023-04-01", "Apple", "Fruit", "1.00");
    enter(&mut app, "2023-04-01", "Apricot", "Fruit", "2.00");
    enter(&mut app, "2023-04-01", "Banana", "Fruit", "3.00");
    app.begin_insert(String::from("2023-04-02"));
    app.confirm().unwrap();
    app.set_buffer(String::from("A"));
    assert_eq!(app.history, vec![String::from("Apple"), String::from("Apricot")]);
    assert_eq!(app.list_sel, None);
    app.navigate(NavOp::Down(1));
    assert_eq!(app.list_sel, Some(0));
    app.navigate(NavOp::Down(1));
    assert_eq!(app.list_sel, Some(1));
    app.accept_suggestion();
    assert_eq!(app.get_text(), "Apricot");
    // the filter recomputed: exactly one candidate remains, auto-selected
    assert_eq!(app.history, vec![String::from("Apricot")]);
    assert_eq!(app.list_sel, Some(0));
}

#[test]
fn delete_clamps_selection_to_last_valid_index() {
    let mut app = App::new();
    enter(&mut app, "2023-04-01", "a", "c", "1.00");
    enter(&mut app, "2023-04-02", "b", "c", "2.00");
    enter(&mut app, "2023-04-03", "c", "c", "3.00");
    app.navigate(NavOp::End);
    assert_eq!(app.table_sel, Some(2));
    app.delete_selected();
    assert_eq!(app.store.records.len(), 2);
    assert_eq!(app.table_sel, Some(1));
    app.navigate(NavOp::Home);
    app.delete_selected();
    assert_eq!(app.store.records.len(), 1);
    assert_eq!(app.table_sel, Some(0));
    app.delete_selected();
    assert_eq!(app.store.records.len(), 0);
    assert_eq!(app.table_sel, None);
    // with nothing selected, deleting does nothing
    app.delete_selected();
    assert_eq!(app.store.records.len(), 0);
}

#[test]
fn resort_sorts_table_and_is_idempotent() {
    let mut app = App::new();
    enter(&mut app, "2023-03-01", "x", "c", "1.00");
    enter(&mut app, "2023-01-01", "y", "c", "2.00");
    enter(&mut app, "2023-02-01", "z", "c", "3.00");
    app.resort();
    let dates1: Vec<String> = app.store.records.iter().map(|r| r.date.clone()).collect();
    assert_eq!(
        dates1,
        vec![String::from("2023-01-01"), String::from("2023-02-01"), String::from("2023-03-01")]
    );
    let ids1: Vec<i64> = app.store.records.iter().map(|r| r.id).collect();
    app.resort();
    let ids2: Vec<i64> = app.store.records.iter().map(|r| r.id).collect();
    assert_eq!(ids1, ids2);
}

#[test]
fn table_navigation_in_browse() {
    let mut app = App::new();
    enter(&mut app, "2023-04-01", "a", "c", "1.00");
    enter(&mut app, "2023-04-02", "b", "c", "2.00");
    enter(&mut app, "2023-04-03", "c", "c", "3.00");
    // after the entries, the last written record is selected
    app.navigate(NavOp::Home);
    assert_eq!(app.table_sel, Some(0));
    app.navigate(NavOp::Down(1));
    assert_eq!(app.table_sel, Some(1));
    app.navigate(NavOp::End);
    assert_eq!(app.table_sel, Some(2));
    app.navigate(NavOp::Up(10));
    assert_eq!(app.table_sel, Some(0));
}

#[test]
fn load_items_validates_and_selects_first() {
    let mut app = App::new();
    let good = vec![
        DbItem {
            id: 10,
            date: String::from("2023-01-01"),
            category: String::from("a"),
            description: String::from("x"),
            price: 100,
        },
        DbItem {
            id: 4,
            date: String::from("2023-02-01"),
            category: String::from("b"),
            description: String::from("y"),
            price: 200,
        },
    ];
    assert!(app.load_items(good));
    assert_eq!(app.store.records.len(), 2);
    assert_eq!(app.table_sel, Some(0));
    // new ids continue above the largest loaded id
    app.begin_insert(String::from("2023-03-01"));
    app.confirm().unwrap();
    app.set_buffer(String::from("z"));
    app.confirm().unwrap();
    app.confirm().unwrap();
    app.set_buffer(String::from("1.00"));
    app.confirm().unwrap();
    assert_eq!(app.store.records[2].id, 11);
    app.escape();

    // a malformed date is rejected and nothing changes
    let bad_date = vec![DbItem {
        id: 1,
        date: String::from("01/02/2023"),
        category: String::new(),
        description: String::new(),
        price: 1,
    }];
    assert!(!app.load_items(bad_date));
    assert_eq!(app.store.records.len(), 3);

    // duplicate ids are rejected
    let dup = vec![
        DbItem {
            id: 1,
            date: String::from("2023-01-01"),
            category: String::new(),
            description: String::new(),
            price: 1,
        },
        DbItem {
            id: 1,
            date: String::from("2023-01-02"),
            category: String::new(),
            description: String::new(),
            price: 2,
        },
    ];
    assert!(!app.load_items(dup));
    assert_eq!(app.store.records.len(), 3);
}

#[test]
fn begin_insert_today_preloads_the_clock_date() {
    let mut app = App::new();
    app.begin_insert_today();
    assert_eq!(app.state, AppState::InsertDate);
    assert!(app.item_template.is_none());
    // the system clock yields a date the strict parser accepts
    assert!(app.is_valid());
}

#[test]
fn history_is_empty_outside_autocomplete_states() {
    let mut app = App::new();
    enter(&mut app, "2023-04-01", "Milk", "Dairy", "3.50");
    app.begin_insert(String::from("2023-04-02"));
    assert_eq!(app.history.len(), 0);
    app.confirm().unwrap();
    // empty prefix lists every distinct description
    assert_eq!(app.history, vec![String::from("Milk")]);
    app.set_buffer(String::from("Milk"));
    app.confirm().unwrap();
    app.confirm().unwrap();
    assert_eq!(app.state, AppState::InsertPrice);
    assert_eq!(app.history.len(), 0);
}
