use kvdb::db::api::{Batch, ConfigBuilder, Db, Driver, IterOptions};
use kvdb::db::sled::new_driver;
use tempdir::TempDir;

#[test]
fn sled_test_get_put() {
    let tmp_dir = TempDir::new("tgp").unwrap();
    let tmp_path = tmp_dir.path().to_str().unwrap().to_string();
    let db_config = ConfigBuilder::new().path(tmp_path).read_only(false).build();

    let driver = new_driver();

    let mut db = driver.start_db(db_config).unwrap();

    assert_eq!(db.get(b"name"), Ok(None));
    assert_eq!(db.put(b"name", b"alan"), Ok(true));
    assert_eq!(db.get(b"name"), Ok(Some(Vec::from("alan"))));
    assert_eq!(db.del(b"name"), Ok(true));
    assert_eq!(db.get(b"name"), Ok(None));
    assert_eq!(db.get(b"never_existed"), Ok(None));
}

#[test]
fn sled_test_del() {
    let tmp_dir = TempDir::new("td").unwrap();
    let tmp_path = tmp_dir.path().to_str().unwrap().to_string();
    let db_config = ConfigBuilder::new().path(tmp_path).read_only(false).build();

    let driver = new_driver();

    let mut db = driver.start_db(db_config).unwrap();

    assert_eq!(db.put(b"name", b"alan"), Ok(true));
    assert_eq!(db.del(b"name"), Ok(true));
    assert_eq!(db.del(b"name"), Ok(false));
}

#[test]
fn sled_test_batch() {
    let tmp_dir = TempDir::new("tb").unwrap();
    let tmp_path = tmp_dir.path().to_str().unwrap().to_string();
    let db_config = ConfigBuilder::new().path(tmp_path).read_only(false).build();

    let driver = new_driver();

    let mut db = driver.start_db(db_config).unwrap();

    assert_eq!(db.put(b"name", b"alan"), Ok(true));

    let mut batch = Batch::default();
    batch.insert(b"age", b"25");
    batch.insert(b"city", b"anytown");
    batch.remove(b"name");
    assert_eq!(db.apply_batch(&batch), Ok(true));

    assert_eq!(db.get(b"name"), Ok(None));
    assert_eq!(db.get(b"age"), Ok(Some(Vec::from("25"))));
    assert_eq!(db.get(b"city"), Ok(Some(Vec::from("anytown"))));
}

#[test]
fn sled_test_clear() {
    let tmp_dir = TempDir::new("tc").unwrap();
    let tmp_path = tmp_dir.path().to_str().unwrap().to_string();
    let db_config = ConfigBuilder::new().path(tmp_path).read_only(false).build();

    let driver = new_driver();

    let mut db = driver.start_db(db_config).unwrap();

    assert_eq!(db.put(b"name", b"alan"), Ok(true));
    assert_eq!(db.put(b"age", b"25"), Ok(true));
    assert_eq!(db.get(b"name"), Ok(Some(Vec::from("alan"))));
    assert_eq!(db.clear(), Ok(true));
    assert_eq!(db.get(b"name"), Ok(None));
    assert_eq!(db.get(b"age"), Ok(None));
}

#[test]
fn sled_test_stat() {
    let tmp_dir = TempDir::new("tc").unwrap();
    let tmp_path = tmp_dir.path().to_str().unwrap().to_string();
    let db_config = ConfigBuilder::new().path(tmp_path).read_only(false).build();

    let driver = new_driver();

    let mut db = driver.start_db(db_config).unwrap();

    assert_eq!(db.put(b"name1", b"alan"), Ok(true));
    assert_eq!(db.put(b"age1", b"25"), Ok(true));
    assert_eq!(db.put(b"name", b"alan"), Ok(true));
    assert_eq!(db.del(b"name"), Ok(true));
    assert_eq!(db.del(b"name"), Ok(false));

    let st = db.stat().unwrap();
    assert_eq!(st.n_records, 2);
}

#[test]
fn sled_test_iter() {
    let tmp_dir = TempDir::new("tc").unwrap();
    let tmp_path = tmp_dir.path().to_str().unwrap().to_string();
    let db_config = ConfigBuilder::new().path(tmp_path).read_only(false).build();

    let driver = new_driver();

    let mut db = driver.start_db(db_config).unwrap();

    // iterate empty list
    let key_list_res = db.iter_keys(IterOptions::new());
    assert_eq!(key_list_res.is_err(), false);

    let mut key_list = key_list_res.unwrap();
    assert_eq!(key_list.list_end, true);

    key_list.keys.sort();
    assert_eq!(key_list.keys.len(), 0);

    // iterate small list
    assert_eq!(db.put(b"name", b"alan"), Ok(true));
    assert_eq!(db.put(b"age", b"25"), Ok(true));

    let key_list_res = db.iter_keys(IterOptions::new());
    assert_eq!(key_list_res.is_err(), false);

    let mut key_list = key_list_res.unwrap();
    assert_eq!(key_list.list_end, true);

    key_list.keys.sort();
    assert_eq!(key_list.keys.len(), 2);
    assert_eq!(key_list.keys[0], b"age");
    assert_eq!(key_list.keys[1], b"name");
}

#[test]
fn sled_test_iter_prefix() {
    let tmp_dir = TempDir::new("tc").unwrap();
    let tmp_path = tmp_dir.path().to_str().unwrap().to_string();
    let db_config = ConfigBuilder::new().path(tmp_path).read_only(false).build();

    let driver = new_driver();

    let mut db = driver.start_db(db_config).unwrap();

    // iterate small list
    assert_eq!(db.put(b"2018/name", b"alan"), Ok(true));
    assert_eq!(db.put(b"2018/bame", b"alan"), Ok(true));
    assert_eq!(db.put(b"2019/fame", b"alan"), Ok(true));
    assert_eq!(db.put(b"2019/lame", b"alan"), Ok(true));
    assert_eq!(db.put(b"2019/game", b"alan"), Ok(true));
    assert_eq!(db.put(b"2020/tame", b"alan"), Ok(true));
    assert_eq!(db.put(b"age", b"25"), Ok(true));

    let key_list_res = db.iter_keys(IterOptions::new());
    assert_eq!(key_list_res.is_err(), false);

    let key_list = key_list_res.unwrap();
    assert_eq!(key_list.list_end, true);
    assert_eq!(key_list.keys.len(), 7);

    // iterate with prefix matching
    let mut opts = IterOptions::new();
    opts.prefix(b"2019/");

    let key_list_res = db.iter_keys(opts);
    assert_eq!(key_list_res.is_err(), false);

    let mut key_list = key_list_res.unwrap();
    assert_eq!(key_list.list_end, true);
    assert_eq!(key_list.keys.len(), 3);

    key_list.keys.sort();
    assert_eq!(
        String::from_utf8_lossy(&key_list.keys[0]),
        String::from("2019/fame")
    );
    assert_eq!(
        String::from_utf8_lossy(&key_list.keys[1]),
        String::from("2019/game")
    );
    assert_eq!(
        String::from_utf8_lossy(&key_list.keys[2]),
        String::from("2019/lame")
    );
}
