//! Tests of the transactional store, the scans, the executor, and the
//! document codec.

use kuiperdb::doc::{Document, Value};
use kuiperdb::error::Error;
use kuiperdb::exec::{Executor, QueryPlan};
use kuiperdb::plan::CollectionScan;
use kuiperdb::store::Datastore;

fn b(s: &str) -> Vec<u8> {
    s.as_bytes().to_vec()
}

#[test]
fn committed_upsert_is_visible_later() {
    let mut ds = Datastore::new("t1").unwrap();
    let mut t = ds.transaction(true).unwrap();
    t.upsert(b("k"), b("v1")).unwrap();
    t.commit(&mut ds).unwrap();

    let t2 = ds.transaction(false).unwrap();
    assert_eq!(t2.get(&b("k")).unwrap(), Some(b("v1")));
}

#[test]
fn never_written_is_absent() {
    let ds = Datastore::new("t2").unwrap();
    let t = ds.transaction(false).unwrap();
    assert_eq!(t.get(&b("missing")).unwrap(), None);
    assert_eq!(t.key_exists(&b("missing")).unwrap(), false);
}

#[test]
fn finished_transaction_rejects_every_operation() {
    let mut ds = Datastore::new("t3").unwrap();
    let mut t = ds.transaction(true).unwrap();
    t.upsert(b("k"), b("v")).unwrap();
    t.commit(&mut ds).unwrap();
    assert!(t.is_completed());
    assert_eq!(t.get(&b("k")), Err(Error::TxFinished));
    assert_eq!(t.upsert(b("k"), b("v")), Err(Error::TxFinished));
    assert_eq!(t.commit(&mut ds), Err(Error::TxFinished));
    assert_eq!(t.rollback(), Err(Error::TxFinished));

    let mut t2 = ds.transaction(true).unwrap();
    t2.rollback().unwrap();
    assert_eq!(t2.delete(b("k")), Err(Error::TxFinished));
}

#[test]
fn readonly_rejects_writes() {
    let ds = Datastore::new("t4").unwrap();
    let mut t = ds.transaction(false).unwrap();
    assert_eq!(t.upsert(b("k"), b("v")), Err(Error::TxReadonly));
    assert_eq!(t.insert(b("k"), b("v")), Err(Error::TxReadonly));
    assert_eq!(t.delete(b("k")), Err(Error::TxReadonly));
    assert_eq!(t.update_index("ix", b("k"), b("v")), Err(Error::TxReadonly));
}

#[test]
fn insert_twice_reports_existing_key() {
    let ds = Datastore::new("t5").unwrap();
    let mut t = ds.transaction(true).unwrap();
    t.insert(b("k"), b("v1")).unwrap();
    assert_eq!(t.insert(b("k"), b("v2")), Err(Error::TxKeyAlreadyExists));
}

#[test]
fn checked_insert_follows_current_value() {
    let mut ds = Datastore::new("t6").unwrap();
    let mut t = ds.transaction(true).unwrap();
    t.upsert(b("k"), b("v1")).unwrap();
    t.commit(&mut ds).unwrap();

    let mut t2 = ds.transaction(true).unwrap();
    assert_eq!(
        t2.insert_checked(b("k"), b("v2"), Some(b("wrong"))),
        Err(Error::TxConditionNotMet)
    );
    assert_eq!(
        t2.insert_checked(b("other"), b("v"), Some(b("v1"))),
        Err(Error::TxConditionNotMet)
    );
    t2.insert_checked(b("k"), b("v2"), Some(b("v1"))).unwrap();
    t2.insert_checked(b("fresh"), b("v3"), None).unwrap();
    t2.commit(&mut ds).unwrap();

    let t3 = ds.transaction(false).unwrap();
    assert_eq!(t3.get(&b("k")).unwrap(), Some(b("v2")));
    assert_eq!(t3.get(&b("fresh")).unwrap(), Some(b("v3")));
}

#[test]
fn checked_delete_follows_current_value() {
    let mut ds = Datastore::new("t7").unwrap();
    let mut t = ds.transaction(true).unwrap();
    t.upsert(b("k"), b("v1")).unwrap();
    assert_eq!(
        t.delete_checked(b("k"), Some(b("wrong"))),
        Err(Error::TxConditionNotMet)
    );
    t.delete_checked(b("k"), Some(b("v1"))).unwrap();
    assert_eq!(t.get(&b("k")).unwrap(), None);
    t.commit(&mut ds).unwrap();
}

#[test]
fn rollback_discards_writes() {
    let mut ds = Datastore::new("t8").unwrap();
    let mut t = ds.transaction(true).unwrap();
    t.upsert(b("k"), b("v1")).unwrap();
    t.rollback().unwrap();

    let t2 = ds.transaction(false).unwrap();
    assert_eq!(t2.get(&b("k")).unwrap(), None);
}

#[test]
fn overlapping_commits_conflict() {
    let mut ds = Datastore::new("t9").unwrap();
    let mut t1 = ds.transaction(true).unwrap();
    let mut t2 = ds.transaction(true).unwrap();
    t1.upsert(b("k"), b("from t1")).unwrap();
    t2.upsert(b("k"), b("from t2")).unwrap();
    t1.commit(&mut ds).unwrap();
    match t2.commit(&mut ds) {
        Err(Error::Tx(_)) => {},
        other => panic!("expected an optimistic conflict, found {:?}", other),
    }
    assert!(t2.is_completed());

    let t3 = ds.transaction(false).unwrap();
    assert_eq!(t3.get(&b("k")).unwrap(), Some(b("from t1")));
}

#[test]
fn snapshot_isolation_holds_within_a_transaction() {
    let mut ds = Datastore::new("t10").unwrap();
    let mut t1 = ds.transaction(true).unwrap();
    t1.upsert(b("k"), b("v1")).unwrap();
    let reader = ds.transaction(false).unwrap();
    t1.commit(&mut ds).unwrap();
    // The reader began before the commit: it still sees the old state.
    assert_eq!(reader.get(&b("k")).unwrap(), None);
}

#[test]
fn index_catalogue_is_idempotent_and_hides_default() {
    let mut ds = Datastore::new("t11").unwrap();
    assert!(ds.index_exists("default"));
    assert!(!ds.index_exists("ix"));
    ds.add_index("ix");
    ds.add_index("ix");
    assert!(ds.index_exists("ix"));
    let names = ds.index_names();
    assert_eq!(names, vec![String::from("ix")]);
    ds.drop_index("ix");
    ds.drop_index("ix");
    assert!(!ds.index_exists("ix"));
    assert_eq!(ds.index_names().len(), 0);
}

#[test]
fn drop_index_removes_exactly_one_name() {
    let mut ds = Datastore::new("t22").unwrap();
    ds.add_index("ix1");
    ds.add_index("ix2");
    ds.add_index("ix3");
    ds.drop_index("ix2");
    assert_eq!(
        ds.index_names(),
        vec![String::from("ix1"), String::from("ix3")]
    );
    ds.drop_index("missing");
    assert_eq!(
        ds.index_names(),
        vec![String::from("ix1"), String::from("ix3")]
    );
}

#[test]
fn open_with_recovers_index_names() {
    let names = vec![
        String::from("ix2"),
        String::from("default"),
        String::from("ix1"),
        String::from("ix2"),
    ];
    let ds = Datastore::open_with("t23", &names).unwrap();
    assert_eq!(
        ds.index_names(),
        vec![String::from("ix2"), String::from("ix1")]
    );
    assert!(ds.index_exists("ix1"));
    assert!(ds.index_exists("default"));
    let t = ds.transaction(false).unwrap();
    assert_eq!(t.get(&b("anything")).unwrap(), None);
}

#[test]
fn id_bytes_answers_only_for_an_id_field() {
    let mut without = Document::new();
    without.insert(b("name"), Value::Str(b("x")));
    assert!(without.id_bytes().is_none());

    let mut wrong_kind = Document::new();
    wrong_kind.insert(b("_id"), Value::Str(b("not an object id")));
    assert!(wrong_kind.id_bytes().is_none());

    let mut with = Document::new();
    with.insert(b("_id"), Value::Id(vec![3; 12]));
    assert_eq!(with.id_bytes().unwrap(), vec![3; 12]);
}

#[test]
fn failed_registration_commits_nothing() {
    let ds = Datastore::new("t24").unwrap();
    let mut ex = Executor::new(ds);
    assert!(ex.create_collection("bad::name").is_err());
    let scan = CollectionScan {
        schema: String::from("information_schema"),
        collection: String::from("table"),
        alias: None,
        expr: None,
    };
    assert_eq!(ex.execute_count(scan).unwrap(), 0);
}

#[test]
fn update_index_requires_existing_index() {
    let mut ds = Datastore::new("t12").unwrap();
    let mut t = ds.transaction(true).unwrap();
    match t.update_index("nope", b("k"), b("v")) {
        Err(Error::Tx(m)) => assert_eq!(m, "`nope` index does not exist."),
        other => panic!("expected a missing-index error, found {:?}", other),
    }
}

#[test]
fn collection_scan_returns_prefix_rows_in_order() {
    let mut ds = Datastore::new("t13").unwrap();
    let mut t = ds.transaction(true).unwrap();
    t.upsert(b("a::t::1"), b("v1")).unwrap();
    t.upsert(b("a::t::3"), b("v3")).unwrap();
    t.upsert(b("a::t::2"), b("v2")).unwrap();
    t.upsert(b("a::u::9"), b("other")).unwrap();
    t.upsert(b("zzz"), b("far")).unwrap();
    t.commit(&mut ds).unwrap();

    let t2 = ds.transaction(false).unwrap();
    let rows = t2.scan_collection(b("a::t::"), None, None).unwrap();
    let keys: Vec<Vec<u8>> = rows.iter().map(|r| r.0.clone()).collect();
    assert_eq!(keys, vec![b("a::t::1"), b("a::t::2"), b("a::t::3")]);
}

#[test]
fn paginated_scan_concatenates_to_full_scan() {
    let mut ds = Datastore::new("t14").unwrap();
    let mut t = ds.transaction(true).unwrap();
    for i in 0..7u8 {
        t.upsert(vec![112, 58, 58, i], vec![i]).unwrap();
    }
    t.commit(&mut ds).unwrap();

    let t2 = ds.transaction(false).unwrap();
    let full = t2.scan_collection(vec![112, 58, 58], None, None).unwrap();
    let mut paged = Vec::new();
    let mut after: Option<Vec<u8>> = None;
    loop {
        let page = t2
            .scan_collection(vec![112, 58, 58], Some(3), after.clone())
            .unwrap();
        let short = page.len() < 3;
        for row in page {
            after = Some(row.0.clone());
            paged.push(row);
        }
        if short {
            break;
        }
    }
    assert_eq!(full, paged);
    assert_eq!(full.len(), 7);
}

#[test]
fn plain_scan_pages_past_cursor() {
    let mut ds = Datastore::new("t15").unwrap();
    let mut t = ds.transaction(true).unwrap();
    t.upsert(b("a"), b("1")).unwrap();
    t.upsert(b("b"), b("2")).unwrap();
    t.upsert(b("c"), b("3")).unwrap();
    t.commit(&mut ds).unwrap();

    let t2 = ds.transaction(false).unwrap();
    let first = t2.scan(2, None).unwrap();
    assert_eq!(first.len(), 2);
    assert_eq!(first[0].0, b("a"));
    let rest = t2.scan(10, Some(first[1].0.clone())).unwrap();
    assert_eq!(rest.len(), 1);
    assert_eq!(rest[0].0, b("c"));
}

#[test]
fn range_scan_is_half_open() {
    let mut ds = Datastore::new("t16").unwrap();
    let mut t = ds.transaction(true).unwrap();
    t.upsert(b("a"), b("1")).unwrap();
    t.upsert(b("b"), b("2")).unwrap();
    t.upsert(b("c"), b("3")).unwrap();
    t.commit(&mut ds).unwrap();

    let t2 = ds.transaction(false).unwrap();
    let keys = t2.scan_range(b("a")..b("c"), 10).unwrap();
    assert_eq!(keys, vec![b("a"), b("b")]);
}

#[test]
fn index_scan_respects_upper_bound() {
    let mut ds = Datastore::new("t17").unwrap();
    ds.add_index("ix");
    let mut t = ds.transaction(true).unwrap();
    t.update_index("ix", b("k1"), b("v1")).unwrap();
    t.update_index("ix", b("k2"), b("v2")).unwrap();
    t.update_index("ix", b("k9"), b("v9")).unwrap();
    let rows = t.scan_collection_index(b("k3"), "ix", 10, None).unwrap();
    let keys: Vec<Vec<u8>> = rows.iter().map(|r| r.0.clone()).collect();
    assert_eq!(keys, vec![b("k1"), b("k2")]);
}

#[test]
fn document_codec_round_trips() {
    let mut inner = Document::new();
    inner.insert(b("deep"), Value::Bool(true));

    let mut d = Document::new();
    d.insert(b("_id"), Value::Id(vec![7; 12]));
    d.insert(b("name"), Value::Str(b("abc")));
    d.insert(b("raw"), Value::Bin(vec![0, 255, 3]));
    d.insert(b("flag"), Value::Bool(false));
    d.insert(b("small"), Value::I32(-42));
    d.insert(b("big"), Value::I64(-9000000000));
    d.insert(b("bits"), Value::Double(0x400921fb54442d18));
    d.insert(b("money"), Value::Dec(vec![1; 16]));
    d.insert(b("at"), Value::Ts(123456789));
    d.insert(b("when"), Value::Dt(-5));
    d.insert(b("nothing"), Value::Null);
    d.insert(b("nested"), Value::Doc(inner));
    d.insert(b("list"), Value::Arr(vec![Value::I32(1), Value::Null]));

    let bytes = d.encode();
    let back = Document::decode(&bytes).unwrap();
    let again = back.encode();
    assert_eq!(bytes, again);
    assert_eq!(back.id_bytes().unwrap(), vec![7; 12]);
}

#[test]
fn truncated_document_fails_to_decode() {
    let mut d = Document::new();
    d.insert(b("_id"), Value::Id(vec![1; 12]));
    let mut bytes = d.encode();
    bytes.pop();
    assert!(Document::decode(&bytes).is_none());
    bytes.push(0);
    bytes.push(0);
    assert!(Document::decode(&bytes).is_none());
}

#[test]
fn executor_counts_bulk_inserts() {
    let ds = Datastore::new("t18").unwrap();
    let mut ex = Executor::new(ds);
    ex.create_collection("t").unwrap();
    ex.test_bulk_insert("t", 3).unwrap();
    let scan = CollectionScan {
        schema: String::from("default"),
        collection: String::from("t"),
        alias: None,
        expr: None,
    };
    assert_eq!(ex.execute_count(scan).unwrap(), 3);
}

#[test]
fn executor_scan_returns_distinct_ids_in_key_order() {
    let ds = Datastore::new("t19").unwrap();
    let mut ex = Executor::new(ds);
    ex.test_bulk_insert("t", 3).unwrap();
    let scan = CollectionScan {
        schema: String::from("default"),
        collection: String::from("t"),
        alias: None,
        expr: None,
    };
    let count = ex.execute_count(CollectionScan {
        schema: String::from("default"),
        collection: String::from("t"),
        alias: None,
        expr: None,
    })
    .unwrap();
    let docs = ex.execute_collection_scan(scan).unwrap();
    assert_eq!(docs.len(), 3);
    assert_eq!(count as usize, docs.len());
    let mut ids: Vec<Vec<u8>> = docs.iter().map(|d| d.id_bytes().unwrap()).collect();
    for id in &ids {
        assert_eq!(id.len(), 12);
    }
    let sorted = {
        let mut c = ids.clone();
        c.sort();
        c
    };
    assert_eq!(ids, sorted);
    ids.dedup();
    assert_eq!(ids.len(), 3);
}

#[test]
fn executor_select_round_trips_documents() {
    let ds = Datastore::new("t20").unwrap();
    let mut ex = Executor::new(ds);
    ex.test_insert("t").unwrap();
    let result = ex
        .execute_select(QueryPlan {
            schema: String::from("default"),
            collection: String::from("t"),
        })
        .unwrap();
    assert_eq!(result.records.len(), 1);
    let id = result.records[0].id_bytes().unwrap();
    assert_eq!(id.len(), 12);

    // The stored bytes are exactly the document's canonical encoding.
    let again = result.records[0].encode();
    let decoded = Document::decode(&again).unwrap();
    assert_eq!(decoded.id_bytes().unwrap(), id);
}

#[test]
fn collection_name_with_pad_is_rejected() {
    let ds = Datastore::new("t21").unwrap();
    let mut ex = Executor::new(ds);
    match ex.create_collection("bad::name") {
        Err(Error::Value(_)) => {},
        other => panic!("expected a value error, found {:?}", other),
    }
}

#[test]
fn error_messages_read_as_documented() {
    assert_eq!(
        Error::TxFinished.message(),
        "Couldn't update a finished transaction"
    );
    assert_eq!(
        Error::TxReadonly.message(),
        "Couldn't write to a read only transaction"
    );
    assert_eq!(
        Error::Tx(String::from("boom")).message(),
        "There was a problem with a datastore transaction: boom"
    );
    assert_eq!(
        Error::TxConditionNotMet.message(),
        "Value being checked was not correct"
    );
    assert_eq!(
        Error::TxKeyAlreadyExists.message(),
        "The key being inserted already exists"
    );
}

#[test]
fn collection_prefix_folds_and_pads() {
    let prefix = kuiperdb::keys::collection_prefix(&b("MySchema"), &b("Books"));
    assert_eq!(prefix, b("myschema::books::"));
    let key = kuiperdb::keys::record_key(&b("MySchema"), &b("Books"), &vec![9; 12]);
    assert_eq!(&key[..17], &b("myschema::books::")[..]);
    assert_eq!(&key[17..], &[9; 12][..]);
}

#[test]
fn pad_detection_is_exact() {
    assert!(kuiperdb::keys::bytes_contain_pad(&b("a::b")));
    assert!(!kuiperdb::keys::bytes_contain_pad(&b("a:b:c")));
    assert!(!kuiperdb::keys::bytes_contain_pad(&b(":")));
    assert!(kuiperdb::keys::bytes_contain_pad(&b("::")));
}

#[test]
fn ascii_lowercase_touches_only_letters() {
    let out = kuiperdb::keys::ascii_lowercase(&b("A-Z[`{z0"));
    assert_eq!(out, b("a-z[`{z0"));
}

#[test]
fn planner_lowers_to_default_schema_scan() {
    let nodes = kuiperdb::parser::parse_query("books AS b | where x = y").unwrap();
    match &nodes[0] {
        kuiperdb::ast::Node::Query(q) => {
            let plan = kuiperdb::plan::QueryPlan::from_ast(q);
            let kuiperdb::plan::Node::CollectionScan(scan) = plan.0;
            assert_eq!(scan.schema, "default");
            assert_eq!(scan.collection, "books");
            assert_eq!(scan.alias, Some(String::from("b")));
            assert!(scan.expr.is_none());
        },
        other => panic!("expected a query, found {:?}", other),
    }
}
