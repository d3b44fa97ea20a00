use fintrack::handlers::{
    create_transaction, delete_transaction, list_transactions, summarize_transactions,
    update_transaction, ApiError,
};
use fintrack::store::Store;

fn seeded() -> Store {
    let mut store = Store::new();
    create_transaction(&mut store, "2025-05-10", "Food".to_string(), "Lunch".to_string(), -1250)
        .unwrap();
    create_transaction(&mut store, "2025-05-20", "Salary".to_string(), "Pay".to_string(), 200000)
        .unwrap();
    store
}

#[test]
fn create_assigns_distinct_ids() {
    let mut store = Store::new();
    let mut ids: Vec<String> = Vec::new();
    for i in 0..10 {
        let t = create_transaction(
            &mut store,
            "2025-01-01",
            "c".to_string(),
            format!("tx {}", i),
            100,
        )
        .unwrap();
        ids.push(t.id);
    }
    for i in 0..ids.len() {
        for j in 0..ids.len() {
            if i != j {
                assert_ne!(ids[i], ids[j]);
            }
        }
    }
}

#[test]
fn created_id_is_well_formed_and_usable() {
    let mut store = Store::new();
    let t = create_transaction(&mut store, "2025-01-01", "c".to_string(), "d".to_string(), 1)
        .unwrap();
    assert_eq!(t.id.chars().count(), 36);
    for (i, c) in t.id.chars().enumerate() {
        if i == 8 || i == 13 || i == 18 || i == 23 {
            assert_eq!(c, '-');
        } else {
            assert!(c.is_ascii_hexdigit() && !c.is_ascii_uppercase());
        }
    }
    // Looking the id up again must reach the record it named.
    let updated = update_transaction(&mut store, &t.id, None, None, None, Some(7)).unwrap();
    assert_eq!(updated.amount, 7);
}

#[test]
fn category_filter_is_case_insensitive_and_exact() {
    let mut store = Store::new();
    create_transaction(&mut store, "2025-01-01", "Food".to_string(), "a".to_string(), 1).unwrap();
    create_transaction(&mut store, "2025-01-02", "food".to_string(), "b".to_string(), 2).unwrap();
    create_transaction(&mut store, "2025-01-03", "Rent".to_string(), "c".to_string(), 3).unwrap();
    let r = list_transactions(&store, Some("FOOD".to_string()), None, None);
    assert_eq!(r.len(), 2);
    assert_eq!(r[0].description, "a");
    assert_eq!(r[1].description, "b");
    for t in &r {
        assert!(t.category.eq_ignore_ascii_case("food"));
    }
    // An empty category is no filter at all.
    let all = list_transactions(&store, Some(String::new()), None, None);
    assert_eq!(all.len(), 3);
}

#[test]
fn date_range_filter_is_inclusive() {
    let mut store = Store::new();
    create_transaction(&mut store, "2025-04-30", "x".to_string(), "before".to_string(), 1)
        .unwrap();
    create_transaction(&mut store, "2025-05-01", "x".to_string(), "first".to_string(), 1)
        .unwrap();
    create_transaction(&mut store, "2025-05-31", "x".to_string(), "last".to_string(), 1).unwrap();
    create_transaction(&mut store, "2025-06-01", "x".to_string(), "after".to_string(), 1)
        .unwrap();
    let r = list_transactions(
        &store,
        None,
        Some("2025-05-01".to_string()),
        Some("2025-05-31".to_string()),
    );
    assert_eq!(r.len(), 2);
    assert_eq!(r[0].description, "first");
    assert_eq!(r[1].description, "last");
}

#[test]
fn unparsable_date_bound_is_skipped() {
    let store = seeded();
    let r = list_transactions(&store, None, Some("not-a-date".to_string()), None);
    assert_eq!(r.len(), 2);
}

#[test]
fn summary_arithmetic() {
    let mut store = Store::new();
    create_transaction(&mut store, "2025-01-01", "a".to_string(), "".to_string(), 10000).unwrap();
    create_transaction(&mut store, "2025-01-02", "b".to_string(), "".to_string(), -4000).unwrap();
    create_transaction(&mut store, "2025-01-03", "c".to_string(), "".to_string(), 2550).unwrap();
    let s = summarize_transactions(&store, None, None);
    assert_eq!(s.total, 8550);
    assert_eq!(s.income, 12550);
    assert_eq!(s.expense, -4000);
    assert_eq!(s.count, 3);
}

#[test]
fn summary_scenario_with_period() {
    let store = seeded();
    let s = summarize_transactions(&store, Some("2025".to_string()), Some("5".to_string()));
    assert_eq!(s.total, 198750);
    assert_eq!(s.income, 200000);
    assert_eq!(s.expense, -1250);
    assert_eq!(s.count, 2);
}

#[test]
fn summary_unparsable_period_is_skipped() {
    let store = seeded();
    let s = summarize_transactions(&store, Some("abc".to_string()), None);
    assert_eq!(s.count, 2);
    let s2 = summarize_transactions(&store, None, Some("13".to_string()));
    assert_eq!(s2.count, 0);
    let s3 = summarize_transactions(&store, Some("2024".to_string()), None);
    assert_eq!(s3.count, 0);
}

#[test]
fn update_changes_only_given_fields() {
    let mut store = Store::new();
    let t = create_transaction(
        &mut store,
        "2025-05-10",
        "Food".to_string(),
        "Lunch".to_string(),
        -1250,
    )
    .unwrap();
    let u = update_transaction(&mut store, &t.id, None, None, None, Some(-999)).unwrap();
    assert_eq!(u.amount, -999);
    assert_eq!(u.date, t.date);
    assert_eq!(u.category, "Food");
    assert_eq!(u.description, "Lunch");
}

#[test]
fn update_rejects_bad_date_before_touching() {
    let mut store = Store::new();
    let t = create_transaction(&mut store, "2025-05-10", "a".to_string(), "b".to_string(), 5)
        .unwrap();
    let r = update_transaction(
        &mut store,
        &t.id,
        Some("13/40/2025".to_string()),
        Some("changed".to_string()),
        None,
        None,
    );
    assert_eq!(r.unwrap_err(), ApiError::InvalidDate);
    let all = list_transactions(&store, None, None, None);
    assert_eq!(all[0].category, "a");
}

#[test]
fn not_found_leaves_collection_unmodified() {
    let mut store = seeded();
    let ghost_id = "123e4567-e89b-12d3-a456-426614174000";
    let r = update_transaction(&mut store, ghost_id, None, None, None, Some(1));
    assert_eq!(r.unwrap_err(), ApiError::NotFound);
    let r2 = delete_transaction(&mut store, ghost_id);
    assert_eq!(r2.unwrap_err(), ApiError::NotFound);
    assert_eq!(store.transactions.len(), 2);
}

#[test]
fn malformed_id_is_rejected() {
    let mut store = seeded();
    assert_eq!(
        update_transaction(&mut store, "not-a-uuid", None, None, None, None).unwrap_err(),
        ApiError::InvalidId
    );
    assert_eq!(
        delete_transaction(&mut store, "123e4567").unwrap_err(),
        ApiError::InvalidId
    );
    assert_eq!(store.transactions.len(), 2);
}

#[test]
fn id_lookup_ignores_case() {
    let mut store = Store::new();
    let t = create_transaction(&mut store, "2025-01-01", "a".to_string(), "b".to_string(), 5)
        .unwrap();
    let upper = t.id.to_uppercase();
    let u = update_transaction(&mut store, &upper, None, None, None, Some(6)).unwrap();
    assert_eq!(u.amount, 6);
}

#[test]
fn delete_removes_exactly_the_record() {
    let mut store = seeded();
    let all = list_transactions(&store, None, None, None);
    let victim = all[0].id.clone();
    delete_transaction(&mut store, &victim).unwrap();
    let left = list_transactions(&store, None, None, None);
    assert_eq!(left.len(), 1);
    assert_eq!(left[0].description, "Pay");
}

#[test]
fn invalid_date_rejected_on_create() {
    let mut store = Store::new();
    let r = create_transaction(
        &mut store,
        "13/40/2025",
        "Food".to_string(),
        "x".to_string(),
        1,
    );
    assert_eq!(r.unwrap_err(), ApiError::InvalidDate);
    assert_eq!(store.transactions.len(), 0);
}

#[test]
fn error_messages() {
    assert_eq!(ApiError::InvalidDate.message(), "Invalid date format. Use YYYY-MM-DD.");
    assert_eq!(ApiError::InvalidId.message(), "Invalid identifier.");
    assert_eq!(ApiError::NotFound.message(), "Transaction not found.");
}
