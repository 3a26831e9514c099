use squid_store::model::{AddItemRequest, Amount, DbError, Item, MonthlyBudget};
use squid_store::store::{
    add_item, add_item_at, budget_row, delete_item, get_items, get_monthly_budget, import_data,
    import_data_at, newest_items, set_monthly_budget, update_item, Database,
};

fn amount(v: f64) -> Amount {
    Amount::from_bits(v.to_bits())
}

fn value_of(a: Amount) -> f64 {
    f64::from_bits(a.bits)
}

fn request(name: &str, value: f64, item_type: &str, created_at: Option<&str>) -> AddItemRequest {
    AddItemRequest {
        name: name.to_string(),
        value: amount(value),
        item_type: item_type.to_string(),
        created_at: created_at.map(|s| s.to_string()),
    }
}

fn record(name: &str, value: f64, created_at: &str) -> Item {
    Item {
        id: 999,
        value: amount(value),
        item_type: "expense".to_string(),
        name: name.to_string(),
        created_at: created_at.to_string(),
    }
}

#[test]
fn fresh_store_is_empty() {
    let db = Database::new();
    assert!(get_items(&db).is_empty());
}

#[test]
fn add_then_list_round_trip() {
    let mut db = Database::new();
    let id = add_item(&mut db, request("Lunch", -12.5, "expense", Some("2024-03-01T12:00:00+00:00"))).unwrap();
    let items = get_items(&db);
    assert_eq!(items.len(), 1);
    let it = &items[0];
    assert_eq!(it.id, id);
    assert_eq!(it.name, "Lunch");
    assert_eq!(value_of(it.value), -12.5);
    assert_eq!(it.item_type, "expense");
    assert_eq!(it.created_at, "2024-03-01T12:00:00+00:00");
}

#[test]
fn ids_are_fresh_and_distinct() {
    let mut db = Database::new();
    let a = add_item(&mut db, request("a", 1.0, "income", Some("2024-01-01"))).unwrap();
    let b = add_item(&mut db, request("a", 1.0, "income", Some("2024-01-01"))).unwrap();
    assert_eq!(a, 1);
    assert_eq!(b, 2);
    let items = get_items(&db);
    assert_eq!(items.len(), 2);
    assert_eq!(items.iter().filter(|i| i.id == a).count(), 1);
    assert_eq!(items.iter().filter(|i| i.id == b).count(), 1);
}

#[test]
fn ids_are_not_reused_after_delete() {
    let mut db = Database::new();
    let a = add_item(&mut db, request("a", 1.0, "income", Some("2024-01-01"))).unwrap();
    delete_item(&mut db, a).unwrap();
    let b = add_item(&mut db, request("b", 2.0, "income", Some("2024-01-02"))).unwrap();
    assert_ne!(a, b);
}

#[test]
fn empty_fields_are_accepted() {
    let mut db = Database::new();
    let id = add_item(&mut db, request("", 0.0, "", Some("2024-01-01"))).unwrap();
    let items = get_items(&db);
    assert_eq!(items[0].id, id);
    assert_eq!(items[0].name, "");
    assert_eq!(items[0].item_type, "");
}

#[test]
fn missing_timestamp_takes_now() {
    let mut db = Database::new();
    add_item_at(&mut db, request("x", 1.0, "income", None), "2030-05-06T07:08:09+00:00".to_string()).unwrap();
    add_item_at(&mut db, request("y", 1.0, "income", Some("")), "2031-01-01T00:00:00+00:00".to_string()).unwrap();
    add_item_at(&mut db, request("z", 1.0, "income", Some("2020-01-01")), "2032-01-01T00:00:00+00:00".to_string()).unwrap();
    let items = get_items(&db);
    assert_eq!(items[0].name, "y");
    assert_eq!(items[0].created_at, "2031-01-01T00:00:00+00:00");
    assert_eq!(items[1].name, "x");
    assert_eq!(items[1].created_at, "2030-05-06T07:08:09+00:00");
    assert_eq!(items[2].created_at, "2020-01-01");
}

#[test]
fn missing_timestamp_uses_clock() {
    let mut db = Database::new();
    add_item(&mut db, request("x", 1.0, "income", None)).unwrap();
    let items = get_items(&db);
    let stamp = &items[0].created_at;
    assert!(!stamp.is_empty());
    assert!(stamp.as_bytes()[4] == b'-' && stamp.contains('T'));
}

#[test]
fn delete_twice_second_is_not_found() {
    let mut db = Database::new();
    let id = add_item(&mut db, request("a", 1.0, "income", Some("2024-01-01"))).unwrap();
    assert!(delete_item(&mut db, id).is_ok());
    assert!(get_items(&db).is_empty());
    assert!(matches!(delete_item(&mut db, id), Err(DbError::NotFound(x)) if x == id));
}

#[test]
fn delete_keeps_other_items() {
    let mut db = Database::new();
    let a = add_item(&mut db, request("a", 1.0, "income", Some("2024-01-01"))).unwrap();
    let b = add_item(&mut db, request("b", 2.0, "income", Some("2024-01-02"))).unwrap();
    delete_item(&mut db, a).unwrap();
    let items = get_items(&db);
    assert_eq!(items.len(), 1);
    assert_eq!(items[0].id, b);
}

#[test]
fn update_replaces_every_field() {
    let mut db = Database::new();
    let id = add_item(&mut db, request("old", 5.0, "income", Some("2024-01-01"))).unwrap();
    update_item(&mut db, id, request("new", -3.0, "expense", Some("2024-02-02"))).unwrap();
    let items = get_items(&db);
    assert_eq!(items.len(), 1);
    assert_eq!(items[0].id, id);
    assert_eq!(items[0].name, "new");
    assert_eq!(value_of(items[0].value), -3.0);
    assert_eq!(items[0].item_type, "expense");
    assert_eq!(items[0].created_at, "2024-02-02");
}

#[test]
fn update_with_empty_fields_does_not_keep_old_ones() {
    let mut db = Database::new();
    let id = add_item(&mut db, request("old", 5.0, "income", Some("2024-01-01"))).unwrap();
    update_item(&mut db, id, request("", 0.0, "", Some(""))).unwrap();
    let items = get_items(&db);
    assert_eq!(items[0].name, "");
    assert_eq!(items[0].item_type, "");
    assert_eq!(items[0].created_at, "");
}

#[test]
fn update_unknown_id_is_not_found() {
    let mut db = Database::new();
    add_item(&mut db, request("a", 1.0, "income", Some("2024-01-01"))).unwrap();
    assert!(matches!(update_item(&mut db, 42, request("b", 2.0, "x", Some("t"))), Err(DbError::NotFound(42))));
    assert_eq!(get_items(&db)[0].name, "a");
}

#[test]
fn update_without_timestamp_is_write_error() {
    let mut db = Database::new();
    let id = add_item(&mut db, request("a", 1.0, "income", Some("2024-01-01"))).unwrap();
    assert!(matches!(update_item(&mut db, id, request("b", 2.0, "x", None)), Err(DbError::Write(_))));
    assert_eq!(get_items(&db)[0].name, "a");
}

#[test]
fn budget_upsert_keeps_one_row() {
    let mut db = Database::new();
    set_monthly_budget(&mut db, "2024-03".to_string(), amount(500.0)).unwrap();
    set_monthly_budget(&mut db, "2024-03".to_string(), amount(750.0)).unwrap();
    let got = get_monthly_budget(&db, "2024-03".to_string()).unwrap();
    assert_eq!(value_of(got), 750.0);
}

#[test]
fn budget_upsert_keeps_row_id() {
    let restored = Database::restore(
        Vec::new(),
        vec![MonthlyBudget { id: 7, month: "2024-03".to_string(), budget_amount: amount(1.0) }],
    );
    let mut db = restored.unwrap();
    set_monthly_budget(&mut db, "2024-03".to_string(), amount(2.0)).unwrap();
    assert_eq!(value_of(get_monthly_budget(&db, "2024-03".to_string()).unwrap()), 2.0);
    set_monthly_budget(&mut db, "2024-04".to_string(), amount(3.0)).unwrap();
    assert_eq!(value_of(get_monthly_budget(&db, "2024-04".to_string()).unwrap()), 3.0);
    assert_eq!(value_of(get_monthly_budget(&db, "2024-03".to_string()).unwrap()), 2.0);
}

#[test]
fn absent_budget_is_not_zero() {
    let db = Database::new();
    assert!(get_monthly_budget(&db, "2099-01".to_string()).is_none());
}

#[test]
fn zero_budget_is_present() {
    let mut db = Database::new();
    set_monthly_budget(&mut db, "2024-01".to_string(), amount(0.0)).unwrap();
    assert_eq!(value_of(get_monthly_budget(&db, "2024-01".to_string()).unwrap()), 0.0);
    assert!(get_monthly_budget(&db, "2024-1".to_string()).is_none());
}

#[test]
fn import_with_bad_record_changes_nothing() {
    let mut db = Database::new();
    add_item(&mut db, request("kept", 1.0, "income", Some("2024-01-01"))).unwrap();
    let mut batch: Vec<Result<Item, String>> = Vec::new();
    for i in 0..5 {
        batch.push(Ok(record(&format!("r{}", i), i as f64, "2024-02-01")));
    }
    batch.insert(3, Err("missing field `value`".to_string()));
    let r = import_data(&mut db, batch);
    assert!(matches!(r, Err(DbError::Parse(m)) if m == "missing field `value`"));
    let items = get_items(&db);
    assert_eq!(items.len(), 1);
    assert_eq!(items[0].name, "kept");
}

#[test]
fn import_adds_all_with_fresh_ids() {
    let mut db = Database::new();
    let first = add_item(&mut db, request("kept", 1.0, "income", Some("2024-01-01"))).unwrap();
    let batch = vec![Ok(record("a", 1.5, "2024-02-01")), Ok(record("b", 2.5, "2024-02-02"))];
    import_data(&mut db, batch).unwrap();
    let items = get_items(&db);
    assert_eq!(items.len(), 3);
    assert_eq!(items[0].name, "b");
    assert_eq!(items[0].id, first + 2);
    assert_eq!(items[1].name, "a");
    assert_eq!(items[1].id, first + 1);
    assert_eq!(value_of(items[1].value), 1.5);
    assert_eq!(items[2].id, first);
}

#[test]
fn import_empty_batch_is_ok() {
    let mut db = Database::new();
    assert!(import_data(&mut db, Vec::new()).is_ok());
    assert!(get_items(&db).is_empty());
}

#[test]
fn listing_orders_newest_first() {
    let mut db = Database::new();
    add_item(&mut db, request("t1", 1.0, "x", Some("2024-01-01T00:00:00Z"))).unwrap();
    add_item(&mut db, request("t2", 1.0, "x", Some("2024-02-01T00:00:00Z"))).unwrap();
    add_item(&mut db, request("t3", 1.0, "x", Some("2024-03-01T00:00:00Z"))).unwrap();
    let names: Vec<String> = get_items(&db).into_iter().map(|i| i.name).collect();
    assert_eq!(names, vec!["t3", "t2", "t1"]);
}

#[test]
fn listing_orders_newest_first_reverse_insertion() {
    let mut db = Database::new();
    add_item(&mut db, request("t3", 1.0, "x", Some("2024-03-01T00:00:00Z"))).unwrap();
    add_item(&mut db, request("t2", 1.0, "x", Some("2024-02-01T00:00:00Z"))).unwrap();
    add_item(&mut db, request("t1", 1.0, "x", Some("2024-01-01T00:00:00Z"))).unwrap();
    let names: Vec<String> = get_items(&db).into_iter().map(|i| i.name).collect();
    assert_eq!(names, vec!["t3", "t2", "t1"]);
}

#[test]
fn listing_ties_keep_insertion_order() {
    let mut db = Database::new();
    add_item(&mut db, request("first", 1.0, "x", Some("2024-01-01"))).unwrap();
    add_item(&mut db, request("later", 1.0, "x", Some("2024-05-01"))).unwrap();
    add_item(&mut db, request("second", 1.0, "x", Some("2024-01-01"))).unwrap();
    let names: Vec<String> = get_items(&db).into_iter().map(|i| i.name).collect();
    assert_eq!(names, vec!["later", "first", "second"]);
}

#[test]
fn listing_compares_text_by_bytes() {
    let mut db = Database::new();
    add_item(&mut db, request("short", 1.0, "x", Some("2024-01"))).unwrap();
    add_item(&mut db, request("long", 1.0, "x", Some("2024-01-15"))).unwrap();
    add_item(&mut db, request("nine", 1.0, "x", Some("2024-9"))).unwrap();
    let names: Vec<String> = get_items(&db).into_iter().map(|i| i.name).collect();
    assert_eq!(names, vec!["nine", "long", "short"]);
}

#[test]
fn restore_keeps_rows_and_continues_ids() {
    let items = vec![
        Item { id: 3, value: amount(1.0), item_type: "x".to_string(), name: "a".to_string(), created_at: "2024-01-01".to_string() },
        Item { id: 9, value: amount(2.0), item_type: "x".to_string(), name: "b".to_string(), created_at: "2024-01-02".to_string() },
    ];
    let mut db = Database::restore(items, Vec::new()).unwrap();
    assert_eq!(get_items(&db).len(), 2);
    let id = add_item(&mut db, request("c", 3.0, "x", Some("2024-01-03"))).unwrap();
    assert_eq!(id, 10);
}

#[test]
fn restore_rejects_inconsistent_rows() {
    let items = vec![
        Item { id: 9, value: amount(1.0), item_type: "x".to_string(), name: "a".to_string(), created_at: "t".to_string() },
        Item { id: 3, value: amount(2.0), item_type: "x".to_string(), name: "b".to_string(), created_at: "t".to_string() },
    ];
    assert!(matches!(Database::restore(items, Vec::new()), Err(DbError::Init(_))));
    let budgets = vec![
        MonthlyBudget { id: 1, month: "2024-01".to_string(), budget_amount: amount(1.0) },
        MonthlyBudget { id: 2, month: "2024-01".to_string(), budget_amount: amount(2.0) },
    ];
    assert!(matches!(Database::restore(Vec::new(), budgets), Err(DbError::Init(_))));
}

#[test]
fn ids_run_out_with_write_error() {
    let items = vec![Item {
        id: i64::MAX - 1,
        value: amount(1.0),
        item_type: "x".to_string(),
        name: "a".to_string(),
        created_at: "t".to_string(),
    }];
    let mut db = Database::restore(items, Vec::new()).unwrap();
    assert!(matches!(add_item(&mut db, request("b", 1.0, "x", Some("t"))), Err(DbError::Write(_))));
    assert!(matches!(import_data(&mut db, vec![Ok(record("c", 1.0, "t"))]), Err(DbError::Write(_))));
    assert_eq!(get_items(&db).len(), 1);
}

#[test]
fn import_stamps_empty_timestamps_with_now() {
    let mut db = Database::new();
    let batch = vec![Ok(record("dated", 1.0, "2024-02-01")), Ok(record("undated", 2.0, ""))];
    import_data_at(&mut db, batch, "2030-01-01T00:00:00+00:00".to_string()).unwrap();
    let items = newest_items(&db, 2);
    assert_eq!(items[0].name, "dated");
    assert_eq!(items[0].created_at, "2024-02-01");
    assert_eq!(items[1].name, "undated");
    assert_eq!(items[1].created_at, "2030-01-01T00:00:00+00:00");
}

#[test]
fn import_stamps_empty_timestamps_from_clock() {
    let mut db = Database::new();
    import_data(&mut db, vec![Ok(record("undated", 2.0, ""))]).unwrap();
    let items = get_items(&db);
    let stamp = &items[0].created_at;
    assert!(!stamp.is_empty());
    assert!(stamp.as_bytes()[4] == b'-' && stamp.contains('T'));
}

#[test]
fn newest_items_gives_the_last_inserted() {
    let mut db = Database::new();
    add_item(&mut db, request("a", 1.0, "x", Some("2024-05-01"))).unwrap();
    add_item(&mut db, request("b", 1.0, "x", Some("2024-01-01"))).unwrap();
    add_item(&mut db, request("c", 1.0, "x", Some("2024-03-01"))).unwrap();
    let last: Vec<String> = newest_items(&db, 2).into_iter().map(|i| i.name).collect();
    assert_eq!(last, vec!["b", "c"]);
    assert_eq!(newest_items(&db, 10).len(), 3);
    assert!(newest_items(&db, 0).is_empty());
}

#[test]
fn budget_row_carries_its_id() {
    let mut db = Database::new();
    assert!(budget_row(&db, &"2024-03".to_string()).is_none());
    set_monthly_budget(&mut db, "2024-02".to_string(), amount(1.0)).unwrap();
    set_monthly_budget(&mut db, "2024-03".to_string(), amount(2.0)).unwrap();
    set_monthly_budget(&mut db, "2024-03".to_string(), amount(4.0)).unwrap();
    let row = budget_row(&db, &"2024-03".to_string()).unwrap();
    assert_eq!(row.id, 2);
    assert_eq!(row.month, "2024-03");
    assert_eq!(value_of(row.budget_amount), 4.0);
}

#[test]
fn restore_continues_budget_ids() {
    let budgets = vec![MonthlyBudget { id: 7, month: "2024-03".to_string(), budget_amount: amount(1.0) }];
    let mut db = Database::restore(Vec::new(), budgets).unwrap();
    set_monthly_budget(&mut db, "2024-04".to_string(), amount(2.0)).unwrap();
    assert_eq!(budget_row(&db, &"2024-04".to_string()).unwrap().id, 8);
    assert_eq!(budget_row(&db, &"2024-03".to_string()).unwrap().id, 7);
    let id = add_item(&mut db, request("a", 1.0, "x", Some("2024-01-01"))).unwrap();
    assert_eq!(id, 1);
}
