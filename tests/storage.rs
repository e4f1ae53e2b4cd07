use gptload_rs::storage::KeyStore;
use gptload_rs::billing::BillingStore;

fn temp_store() -> KeyStore {
    let db = sled::Config::new().temporary(true).open().expect("temporary db");
    KeyStore::from_db(db)
}

fn strings(list: &[&str]) -> Vec<String> {
    list.iter().map(|s| s.to_string()).collect()
}

#[test]
fn replace_then_load_gives_deduped_set() {
    let mut store = temp_store();
    store.replace_keys("u1", &strings(&["old"])).unwrap();
    store.replace_keys("u1", &strings(&["b", "a", "b"])).unwrap();
    let mut loaded = store.load_all_keys("u1").unwrap();
    loaded.sort();
    assert_eq!(loaded, strings(&["a", "b"]));
    assert_eq!(store.count_keys("u1").unwrap(), 2);
}

#[test]
fn add_keys_is_idempotent() {
    let mut store = temp_store();
    let keys = strings(&["k1", "k2", "k3"]);
    let first = store.add_keys("u1", &keys).unwrap();
    assert_eq!((first.inserted, first.existed), (3, 0));
    assert_eq!(first.inserted_keys, keys);
    let second = store.add_keys("u1", &keys).unwrap();
    assert_eq!((second.inserted, second.existed), (0, 3));
    assert!(second.inserted_keys.is_empty());
    assert_eq!(store.delete_keys("u1", &strings(&["k1", "zz"])).unwrap(), 1);
    assert_eq!(store.count_keys("u1").unwrap(), 2);
}

#[test]
fn export_then_import_rehydrates() {
    let mut src = temp_store();
    src.replace_keys("u1", &strings(&["a", "b"])).unwrap();
    src.replace_keys("u2", &strings(&["c"])).unwrap();
    let exported = src.export_entries().unwrap();
    let mut dst = temp_store();
    dst.import_entries(&exported).unwrap();
    for id in ["u1", "u2"] {
        let mut a = src.load_all_keys(id).unwrap();
        let mut b = dst.load_all_keys(id).unwrap();
        a.sort();
        b.sort();
        assert_eq!(a, b);
    }
    assert_eq!(dst.load_all_keys("u1").unwrap().len(), 2);
    dst.flush().unwrap();
}

#[test]
fn balances_survive_a_reload() {
    let mut store = temp_store();
    let mut b = BillingStore::new();
    b.create_key("k".to_string(), 50);
    for _ in 0..50 {
        b.adjust_balance("k", -3);
    }
    let mut staged: Vec<(String, i64)> = Vec::new();
    for (k, v) in b.take_pending() {
        staged.retain(|(s, _)| s != &k);
        staged.push((k, v));
    }
    store.flush_balances(&staged).unwrap();
    let reloaded = BillingStore::load(&store).unwrap();
    assert_eq!(reloaded.get_balance("k"), Some(-100));
}
