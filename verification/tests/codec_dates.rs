use fintrack::codec::{decode, encode_store, load_store};
use fintrack::date::{parse_date, Date};
use fintrack::handlers::create_transaction;
use fintrack::ident::serial_string;
use fintrack::num::{parse_i32, parse_u32};
use fintrack::store::Store;
use fintrack::tx::Transaction;

fn tx(id: &str, date: (u32, u32, u32), category: &str, description: &str, amount: i64)
    -> Transaction {
    Transaction {
        id: id.to_string(),
        date: Date { year: date.0, month: date.1, day: date.2 },
        category: category.to_string(),
        description: description.to_string(),
        amount,
    }
}

#[test]
fn save_then_load_roundtrip() {
    let mut store = Store::new();
    create_transaction(
        &mut store,
        "2025-05-10",
        "Food".to_string(),
        "Lunch \"out\" \\ with\nnewline\ttab\rreturn".to_string(),
        -1250,
    )
    .unwrap();
    create_transaction(&mut store, "2024-02-29", "".to_string(), "".to_string(), 0).unwrap();
    create_transaction(&mut store, "2025-05-20", "Salary".to_string(), "Pay".to_string(), 200000)
        .unwrap();
    let doc = encode_store(&store);
    let back = decode(&doc).expect("own document must read back");
    assert_eq!(back.len(), store.transactions.len());
    for (a, b) in back.iter().zip(store.transactions.iter()) {
        assert_eq!(a.id, b.id);
        assert_eq!(a.date, b.date);
        assert_eq!(a.category, b.category);
        assert_eq!(a.description, b.description);
        assert_eq!(a.amount, b.amount);
    }
    // Loading adopts the same collection unchanged.
    let loaded = load_store(&doc);
    assert_eq!(loaded.transactions.len(), 3);
    assert_eq!(loaded.transactions[0].description, store.transactions[0].description);
}

#[test]
fn empty_collection_roundtrip() {
    let store = Store::new();
    let doc = encode_store(&store);
    assert_eq!(doc, "[\n]");
    let back = decode(&doc).unwrap();
    assert_eq!(back.len(), 0);
}

#[test]
fn encoded_document_exact_shape() {
    let t = tx(
        "123e4567-e89b-12d3-a456-426614174000",
        (2025, 5, 10),
        "Food",
        "Lunch",
        -1250,
    );
    let store = Store::from_transactions(vec![t]);
    let doc = encode_store(&store);
    assert_eq!(
        doc,
        "[\n  {\"id\": \"123e4567-e89b-12d3-a456-426614174000\", \"date\": \"2025-05-10\", \
         \"category\": \"Food\", \"description\": \"Lunch\", \"amount\": -12.50}\n]"
    );
}

#[test]
fn unreadable_document_loads_empty() {
    assert!(decode("garbage").is_none());
    assert!(decode("").is_none());
    let s = load_store("{not json");
    assert_eq!(s.transactions.len(), 0);
}

#[test]
fn loading_drops_malformed_and_duplicate_records() {
    let good = tx("123e4567-e89b-12d3-a456-426614174000", (2025, 1, 1), "a", "b", 1);
    let dup = tx("123e4567-e89b-12d3-a456-426614174000", (2025, 1, 2), "c", "d", 2);
    let bad_date = tx("00000000-0000-0000-0000-000000000001", (2025, 2, 30), "e", "f", 3);
    let s = Store::from_transactions(vec![good, dup, bad_date]);
    assert_eq!(s.transactions.len(), 1);
    assert_eq!(s.transactions[0].category, "a");
}

#[test]
fn amount_encoding_pads_cents() {
    let t = tx("00000000-0000-0000-0000-000000000001", (2025, 1, 1), "a", "b", -50);
    let store = Store::from_transactions(vec![t]);
    let doc = encode_store(&store);
    assert!(doc.contains("\"amount\": -0.50"));
    let back = decode(&doc).unwrap();
    assert_eq!(back[0].amount, -50);
}

#[test]
fn date_parser_accepts_only_strict_calendar_dates() {
    assert_eq!(parse_date("2025-05-10"), Some(Date { year: 2025, month: 5, day: 10 }));
    assert_eq!(parse_date("2024-02-29"), Some(Date { year: 2024, month: 2, day: 29 }));
    assert_eq!(parse_date("2025-02-29"), None);
    assert_eq!(parse_date("2025-13-01"), None);
    assert_eq!(parse_date("2025-00-10"), None);
    assert_eq!(parse_date("2025-04-31"), None);
    assert_eq!(parse_date("13/40/2025"), None);
    assert_eq!(parse_date("2025-5-1"), None);
    assert_eq!(parse_date(" 2025-05-10"), None);
    assert_eq!(parse_date("2000-02-29"), Some(Date { year: 2000, month: 2, day: 29 }));
    assert_eq!(parse_date("1900-02-29"), None);
}

#[test]
fn integer_parsers_follow_the_grammar() {
    assert_eq!(parse_u32("12"), Some(12));
    assert_eq!(parse_u32("+12"), Some(12));
    assert_eq!(parse_u32("-1"), None);
    assert_eq!(parse_u32(""), None);
    assert_eq!(parse_u32("1x"), None);
    assert_eq!(parse_u32("4294967295"), Some(u32::MAX));
    assert_eq!(parse_u32("4294967296"), None);
    assert_eq!(parse_i32("-2147483648"), Some(i32::MIN));
    assert_eq!(parse_i32("2147483647"), Some(i32::MAX));
    assert_eq!(parse_i32("2147483648"), None);
    assert_eq!(parse_i32("+7"), Some(7));
    assert_eq!(parse_i32("--7"), None);
}

#[test]
fn reserve_identifiers_are_well_formed() {
    assert_eq!(serial_string(5), "00000000-0000-0000-0000-000000000005");
    assert_eq!(serial_string(0), "00000000-0000-0000-0000-000000000000");
    assert_eq!(serial_string(123456789), "00000000-0000-0000-0000-000123456789");
}
