use kvdb::db::api::{Batch, ConfigBuilder, Db, Driver, IterOptions, KeyList, MAX_ITER_KEYS};
use kvdb::db::registry::{build_backend, find_backend, register_backends};
use kvdb::util::same_text;
use kvdb::db::{lmdb, mem, sled};
use kvdb::util::{parse_lastkey_query, strsplit};
use tempdir::TempDir;

fn mem_db() -> Box<dyn Db> {
    let cfg = ConfigBuilder::new().build();
    mem::new_driver().start_db(cfg).unwrap()
}

fn open_in(dir: &TempDir, driver: Box<dyn Driver>) -> Box<dyn Db> {
    let path = dir.path().to_str().unwrap().to_string();
    let cfg = ConfigBuilder::new().path(path).read_only(false).build();
    driver.start_db(cfg).unwrap()
}

fn key_of(i: usize) -> Vec<u8> {
    format!("key{:05}", i).into_bytes()
}

/// Pages through `db` with `prefix`, checking the shape of each page.
fn list_all(db: &dyn Db, prefix: Option<&[u8]>) -> Vec<Vec<u8>> {
    let mut all: Vec<Vec<u8>> = Vec::new();
    let mut last: Option<Vec<u8>> = None;
    loop {
        let mut opts = IterOptions::new();
        if let Some(k) = &last {
            opts.start(k);
        }
        if let Some(p) = prefix {
            opts.prefix(p);
        }
        let page: KeyList = db.iter_keys(opts).unwrap();
        assert!(page.keys.len() <= MAX_ITER_KEYS);
        assert_eq!(page.list_end, page.keys.len() < MAX_ITER_KEYS);
        last = page.keys.last().cloned();
        all.extend(page.keys);
        if page.list_end {
            return all;
        }
    }
}

fn fill(db: &mut dyn Db, n: usize) -> Vec<Vec<u8>> {
    let mut keys = Vec::new();
    // insert in a scrambled order
    for i in 0..n {
        let j = (i * 7919) % n;
        assert_eq!(db.put(&key_of(j), b"v"), Ok(true));
    }
    for i in 0..n {
        keys.push(key_of(i));
    }
    keys
}

#[test]
fn pagination_lists_every_key_once_in_order() {
    let mut db = mem_db();
    let expected = fill(&mut *db, 2500);
    let all = list_all(&*db, None);
    assert_eq!(all, expected);
}

#[test]
fn pagination_sled_lists_every_key_once_in_order() {
    let dir = TempDir::new("pg").unwrap();
    let mut db = open_in(&dir, sled::new_driver());
    let expected = fill(&mut *db, 1203);
    assert_eq!(list_all(&*db, None), expected);
}

#[test]
fn pagination_lmdb_lists_every_key_once_in_order() {
    let dir = TempDir::new("pg").unwrap();
    let mut db = open_in(&dir, lmdb::new_driver());
    let expected = fill(&mut *db, 1203);
    assert_eq!(list_all(&*db, None), expected);
}

#[test]
fn pagination_with_prefix_spans_pages() {
    let mut db = mem_db();
    for i in 0..1500 {
        assert_eq!(db.put(format!("a/{:05}", i).as_bytes(), b"v"), Ok(true));
        assert_eq!(db.put(format!("b/{:05}", i).as_bytes(), b"v"), Ok(true));
    }
    let all = list_all(&*db, Some(b"b/"));
    assert_eq!(all.len(), 1500);
    for (i, k) in all.iter().enumerate() {
        assert_eq!(k, format!("b/{:05}", i).as_bytes());
    }
}

#[test]
fn full_page_of_exactly_max_keys_is_followed_by_empty_page() {
    let mut db = mem_db();
    fill(&mut *db, MAX_ITER_KEYS);
    let first = db.iter_keys(IterOptions::new()).unwrap();
    assert_eq!(first.keys.len(), MAX_ITER_KEYS);
    assert_eq!(first.list_end, false);
    let mut opts = IterOptions::new();
    opts.start(first.keys.last().unwrap());
    let second = db.iter_keys(opts).unwrap();
    assert_eq!(second.keys.len(), 0);
    assert_eq!(second.list_end, true);
}

fn prefix_scenario(db: &mut dyn Db) {
    for k in ["2018/name", "2018/bame", "2019/fame", "2019/game", "2019/lame", "2020/tame", "age"] {
        assert_eq!(db.put(k.as_bytes(), b"x"), Ok(true));
    }
    let mut opts = IterOptions::new();
    opts.prefix(b"2019/");
    let page = db.iter_keys(opts).unwrap();
    assert_eq!(page.list_end, true);
    let expected: Vec<Vec<u8>> =
        vec![b"2019/fame".to_vec(), b"2019/game".to_vec(), b"2019/lame".to_vec()];
    assert_eq!(page.keys, expected);
}

#[test]
fn prefix_filter_returns_exactly_the_prefixed_keys() {
    let mut db = mem_db();
    prefix_scenario(&mut *db);
    let dir = TempDir::new("pf").unwrap();
    let mut db = open_in(&dir, sled::new_driver());
    prefix_scenario(&mut *db);
    let dir = TempDir::new("pf").unwrap();
    let mut db = open_in(&dir, lmdb::new_driver());
    prefix_scenario(&mut *db);
}

#[test]
fn prefix_that_matches_nothing_ends_listing() {
    let mut db = mem_db();
    assert_eq!(db.put(b"abc", b"1"), Ok(true));
    let mut opts = IterOptions::new();
    opts.prefix(b"zz");
    let page = db.iter_keys(opts).unwrap();
    assert_eq!(page.keys.len(), 0);
    assert_eq!(page.list_end, true);
}

#[test]
fn empty_database_lists_nothing() {
    let db = mem_db();
    let page = db.iter_keys(IterOptions::new()).unwrap();
    assert!(page.keys.is_empty());
    assert!(page.list_end);
    for driver in [sled::new_driver(), lmdb::new_driver()] {
        let dir = TempDir::new("empty").unwrap();
        let db = open_in(&dir, driver);
        let page = db.iter_keys(IterOptions::new()).unwrap();
        assert!(page.keys.is_empty());
        assert!(page.list_end);
        assert_eq!(db.stat().unwrap().n_records, 0);
    }
}

#[test]
fn resume_after_absent_start_key() {
    let mut db = mem_db();
    assert_eq!(db.put(b"a", b"1"), Ok(true));
    assert_eq!(db.put(b"c", b"3"), Ok(true));
    let mut opts = IterOptions::new();
    opts.start(b"b");
    let page = db.iter_keys(opts).unwrap();
    assert_eq!(page.keys, vec![b"c".to_vec()]);
    let mut opts = IterOptions::new();
    opts.start(b"a");
    let page = db.iter_keys(opts).unwrap();
    assert_eq!(page.keys, vec![b"c".to_vec()]);
    let mut opts = IterOptions::new();
    opts.start(b"d");
    let page = db.iter_keys(opts).unwrap();
    assert!(page.keys.is_empty());
    assert!(page.list_end);
}

#[test]
fn resume_after_absent_start_key_on_engines() {
    for driver in [sled::new_driver(), lmdb::new_driver()] {
        let dir = TempDir::new("resume").unwrap();
        let mut db = open_in(&dir, driver);
        assert_eq!(db.put(b"a", b"1"), Ok(true));
        assert_eq!(db.put(b"ab", b"2"), Ok(true));
        assert_eq!(db.put(b"c", b"3"), Ok(true));
        let mut opts = IterOptions::new();
        opts.start(b"b");
        assert_eq!(db.iter_keys(opts).unwrap().keys, vec![b"c".to_vec()]);
        let mut opts = IterOptions::new();
        opts.start(b"a");
        assert_eq!(db.iter_keys(opts).unwrap().keys, vec![b"ab".to_vec(), b"c".to_vec()]);
    }
}

#[test]
fn stat_counts_after_three_inserts_and_one_delete() {
    let mut db = mem_db();
    assert_eq!(db.put(b"k1", b"1"), Ok(true));
    assert_eq!(db.put(b"k2", b"2"), Ok(true));
    assert_eq!(db.put(b"k3", b"3"), Ok(true));
    assert_eq!(db.del(b"k2"), Ok(true));
    assert_eq!(db.stat().unwrap().n_records, 2);
}

#[test]
fn overwrite_keeps_one_record() {
    let mut db = mem_db();
    assert_eq!(db.put(b"k", b"1"), Ok(true));
    assert_eq!(db.put(b"k", b"2"), Ok(true));
    assert_eq!(db.get(b"k"), Ok(Some(b"2".to_vec())));
    assert_eq!(db.stat().unwrap().n_records, 1);
}

#[test]
fn clear_removes_every_record() {
    for driver in [mem::new_driver(), sled::new_driver(), lmdb::new_driver()] {
        let dir = TempDir::new("clear").unwrap();
        let mut db = open_in(&dir, driver);
        assert_eq!(db.put(b"a", b"1"), Ok(true));
        assert_eq!(db.put(b"b", b"2"), Ok(true));
        assert_eq!(db.put(b"c", b"3"), Ok(true));
        assert_eq!(db.clear(), Ok(true));
        assert_eq!(db.get(b"a"), Ok(None));
        assert_eq!(db.get(b"b"), Ok(None));
        assert_eq!(db.get(b"c"), Ok(None));
        assert_eq!(db.stat().unwrap().n_records, 0);
    }
}

#[test]
fn delete_of_absent_key_reports_false() {
    for driver in [mem::new_driver(), sled::new_driver(), lmdb::new_driver()] {
        let dir = TempDir::new("del").unwrap();
        let mut db = open_in(&dir, driver);
        assert_eq!(db.del(b"nothing"), Ok(false));
        assert_eq!(db.put(b"k", b"v"), Ok(true));
        assert_eq!(db.del(b"k"), Ok(true));
        assert_eq!(db.del(b"k"), Ok(false));
    }
}

#[test]
fn scenario_put_get_delete() {
    for driver in [mem::new_driver(), sled::new_driver(), lmdb::new_driver()] {
        let dir = TempDir::new("sc").unwrap();
        let mut db = open_in(&dir, driver);
        assert_eq!(db.put(b"name", b"alan"), Ok(true));
        assert_eq!(db.get(b"name"), Ok(Some(b"alan".to_vec())));
        assert_eq!(db.del(b"name"), Ok(true));
        assert_eq!(db.get(b"name"), Ok(None));
        assert_eq!(db.get(b"never_existed"), Ok(None));
    }
}

#[test]
fn batch_remove_then_inserts() {
    for driver in [mem::new_driver(), sled::new_driver(), lmdb::new_driver()] {
        let dir = TempDir::new("batch").unwrap();
        let mut db = open_in(&dir, driver);
        assert_eq!(db.put(b"k1", b"old"), Ok(true));
        let mut batch = Batch::default();
        batch.remove(b"k1");
        batch.insert(b"k2", b"v2");
        batch.insert(b"k3", b"v3");
        assert_eq!(db.apply_batch(&batch), Ok(true));
        assert_eq!(db.get(b"k1"), Ok(None));
        assert_eq!(db.get(b"k2"), Ok(Some(b"v2".to_vec())));
        assert_eq!(db.get(b"k3"), Ok(Some(b"v3".to_vec())));
        assert_eq!(db.stat().unwrap().n_records, 2);
    }
}

#[test]
fn batch_later_write_wins() {
    for driver in [mem::new_driver(), sled::new_driver(), lmdb::new_driver()] {
        let dir = TempDir::new("lww").unwrap();
        let mut db = open_in(&dir, driver);
        let mut batch = Batch::default();
        batch.insert(b"k", b"first");
        batch.insert(b"k", b"second");
        batch.insert(b"gone", b"x");
        batch.remove(b"gone");
        batch.remove(b"absent");
        assert_eq!(db.apply_batch(&batch), Ok(true));
        assert_eq!(db.get(b"k"), Ok(Some(b"second".to_vec())));
        assert_eq!(db.get(b"gone"), Ok(None));
        assert_eq!(db.stat().unwrap().n_records, 1);
    }
}

#[test]
fn empty_and_binary_keys() {
    let mut db = mem_db();
    assert_eq!(db.put(b"", b"empty"), Ok(true));
    assert_eq!(db.put(&[0u8, 255u8], &[1u8, 2u8]), Ok(true));
    assert_eq!(db.get(b""), Ok(Some(b"empty".to_vec())));
    assert_eq!(db.get(&[0u8, 255u8]), Ok(Some(vec![1u8, 2u8])));
    let page = db.iter_keys(IterOptions::new()).unwrap();
    assert_eq!(page.keys, vec![vec![], vec![0u8, 255u8]]);
}

#[test]
fn keys_order_bytewise_with_prefix_first() {
    let mut db = mem_db();
    for k in [&b"b"[..], &b"ab"[..], &b"a"[..], &b"a\x00"[..], &b"B"[..]] {
        assert_eq!(db.put(k, b"v"), Ok(true));
    }
    let page = db.iter_keys(IterOptions::new()).unwrap();
    let expected: Vec<Vec<u8>> =
        vec![b"B".to_vec(), b"a".to_vec(), b"a\x00".to_vec(), b"ab".to_vec(), b"b".to_vec()];
    assert_eq!(page.keys, expected);
}

#[test]
fn config_builder_defaults() {
    let cfg = ConfigBuilder::new().build();
    assert_eq!(cfg.path, "./db");
    assert_eq!(cfg.read_only, false);
    let cfg = ConfigBuilder::new().read_only(true).path("/tmp/x".to_string()).build();
    assert_eq!(cfg.path, "/tmp/x");
    assert_eq!(cfg.read_only, true);
}

#[test]
fn iter_options_builders() {
    let mut opts = IterOptions::new();
    assert!(opts.start_key.is_none() && opts.prefix.is_none());
    opts.start(b"s").prefix(b"p");
    assert_eq!(opts.start_key, Some(b"s".to_vec()));
    assert_eq!(opts.prefix, Some(b"p".to_vec()));
}

#[test]
fn lmdb_open_fails_on_missing_directory() {
    let cfg = ConfigBuilder::new()
        .path("/nonexistent/kvdb/lmdb".to_string())
        .read_only(false)
        .build();
    assert_eq!(lmdb::new_driver().start_db(cfg).err(), Some("env-open failed"));
}

#[test]
fn registry_names_backends() {
    let b = build_backend("sled").ok().unwrap();
    assert_eq!(b.name, "sled");
    assert_eq!(b.cli_value_name, "sled-DB-PATH");
    assert_eq!(
        b.cli_help,
        "Zeroconf; ignore server config, and create single database 'db' using backend sled with param sled-DB-PATH"
    );
    assert!(build_backend("rocks").is_err());
    let all = register_backends();
    assert_eq!(all.len(), 2);
    assert_eq!(all[0].name, "sled");
    assert_eq!(all[1].name, "lmdb");
    assert_eq!(find_backend(&all, "lmdb"), Some(1));
    assert_eq!(find_backend(&all, "mem"), None);
    assert!(same_text("é", "é"));
    assert!(!same_text("ab", "abc"));
}

#[test]
fn registry_driver_opens_its_engine() {
    let all = register_backends();
    let dir = TempDir::new("reg").unwrap();
    let mut db = open_in(&dir, build_backend("lmdb").ok().unwrap().driver);
    assert_eq!(db.put(b"x", b"y"), Ok(true));
    assert_eq!(db.get(b"x"), Ok(Some(b"y".to_vec())));
    assert_eq!(all.len(), 2);
}

#[test]
fn split_at_first_delimiter_only() {
    assert_eq!(strsplit(String::from("a:b:c"), ':'), Ok(("a".to_string(), "b:c".to_string())));
    assert_eq!(strsplit(String::from("żółw→ok"), '→'), Ok(("żółw".to_string(), "ok".to_string())));
    assert!(strsplit(String::new(), ':').is_err());
}

#[test]
fn lastkey_query_forms() {
    assert_eq!(parse_lastkey_query(""), Ok(None));
    assert_eq!(parse_lastkey_query("lastkey=abc"), Ok(Some("abc".to_string())));
    assert_eq!(parse_lastkey_query("lastkey="), Ok(Some(String::new())));
    assert!(parse_lastkey_query("lastkey=a&x=1").is_err());
    assert!(parse_lastkey_query("last").is_err());
    assert!(parse_lastkey_query("startkey=abc").is_err());
}

#[test]
fn engines_keep_values_apart_from_keys() {
    for driver in [sled::new_driver(), lmdb::new_driver()] {
        let dir = TempDir::new("kv").unwrap();
        let mut db = open_in(&dir, driver);
        assert_eq!(db.put(b"key-one", b"value-one"), Ok(true));
        assert_eq!(db.put(b"key-two", b"value-two"), Ok(true));
        assert_eq!(db.get(b"key-two"), Ok(Some(b"value-two".to_vec())));
        assert_eq!(db.put(b"key-two", b"again"), Ok(true));
        assert_eq!(db.get(b"key-two"), Ok(Some(b"again".to_vec())));
        assert_eq!(db.stat().unwrap().n_records, 2);
        let mut opts = IterOptions::new();
        opts.start(b"key-one");
        assert_eq!(db.iter_keys(opts).unwrap().keys, vec![b"key-two".to_vec()]);
    }
}

#[test]
fn engine_data_survives_reopening() {
    for (i, name) in ["sled", "lmdb"].iter().enumerate() {
        let dir = TempDir::new("reopen").unwrap();
        {
            let mut db = open_in(&dir, build_backend(name).ok().unwrap().driver);
            assert_eq!(db.put(b"persist", b"yes"), Ok(true));
        }
        let db = open_in(&dir, register_backends().remove(i).driver);
        assert_eq!(db.get(b"persist"), Ok(Some(b"yes".to_vec())));
    }
}

#[test]
fn sled_open_fails_on_unwritable_path() {
    let cfg = ConfigBuilder::new()
        .path("/proc/kvdb-no-such-dir/db".to_string())
        .build();
    assert_eq!(sled::new_driver().start_db(cfg).err(), Some("db open failed"));
}

#[test]
fn split_without_delimiter_reports_it() {
    assert_eq!(strsplit(String::from("abcd"), ':'), Err("delim not found"));
}

#[test]
fn batch_builders_record_writes_in_order() {
    use_batch(&mut Batch::default());
}

fn use_batch(batch: &mut Batch) {
    batch.insert(b"k", b"v");
    batch.remove(b"k");
    assert_eq!(batch.ops.len(), 2);
    assert!(matches!(batch.ops[0].op, kvdb::db::api::MutationOp::Insert));
    assert_eq!(batch.ops[0].key, b"k".to_vec());
    assert_eq!(batch.ops[0].value, Some(b"v".to_vec()));
    assert!(matches!(batch.ops[1].op, kvdb::db::api::MutationOp::Remove));
    assert_eq!(batch.ops[1].value, None);
}
