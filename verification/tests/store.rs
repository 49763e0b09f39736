use kv::store::DEFAULT_COMPACTION_THRESHOLD;
use kv::{KvError, KvStore};

fn text(bytes: &[u8]) -> String {
    String::from_utf8(bytes.to_vec()).unwrap()
}

#[test]
fn single_write_then_read() {
    let mut kv = KvStore::open(Vec::new()).unwrap();

    kv.set("k1".to_owned(), "v1".to_owned()).unwrap();

    assert_eq!(kv.get("k1".to_owned()).unwrap().unwrap(), "v1".to_owned());
}

#[test]
fn multiple_write_then_read() {
    let mut kv = KvStore::open(Vec::new()).unwrap();

    kv.set("k1".to_owned(), "v1".to_owned()).unwrap();
    kv.set("k2".to_owned(), "v2".to_owned()).unwrap();
    kv.set("k3".to_owned(), "v3".to_owned()).unwrap();

    assert_eq!(kv.get("k1".to_owned()).unwrap().unwrap(), "v1".to_owned());
    assert_eq!(kv.get("k2".to_owned()).unwrap().unwrap(), "v2".to_owned());
    assert_eq!(kv.get("k3".to_owned()).unwrap().unwrap(), "v3".to_owned());
}

#[test]
fn overwrite_then_read() {
    let mut kv = KvStore::open(Vec::new()).unwrap();

    kv.set("k1".to_owned(), "v1".to_owned()).unwrap();
    kv.set("k2".to_owned(), "v2".to_owned()).unwrap();
    kv.set("k1".to_owned(), "v3".to_owned()).unwrap();

    assert_eq!(kv.get("k1".to_owned()).unwrap().unwrap(), "v3".to_owned());
    assert_eq!(kv.get("k2".to_owned()).unwrap().unwrap(), "v2".to_owned());
}

#[test]
fn write_then_remove() {
    let mut kv = KvStore::open(Vec::new()).unwrap();

    kv.set("k1".to_owned(), "v1".to_owned()).unwrap();
    kv.remove("k1".to_owned()).unwrap();

    assert_eq!(kv.get("k1".to_owned()).unwrap(), None);
}

#[test]
fn remove_non_existant() {
    let mut kv = KvStore::open(Vec::new()).unwrap();

    kv.remove("k1".to_owned()).unwrap();

    assert_eq!(kv.get("k1".to_owned()).unwrap(), None);
}

#[test]
fn compaction_reduces_logsize() {
    let mut kv = KvStore::open(Vec::new()).unwrap();

    kv.compaction_threshold = 5;

    kv.set("k1".to_owned(), "v1".to_owned()).unwrap();
    kv.set("k1".to_owned(), "v2".to_owned()).unwrap();
    kv.set("k1".to_owned(), "v3".to_owned()).unwrap();
    kv.set("k1".to_owned(), "v4".to_owned()).unwrap();

    let log_a = text(kv.log_bytes());

    kv.set("k1".to_owned(), "v5".to_owned()).unwrap();

    let log_b = text(kv.log_bytes());

    assert!(log_b.len() < log_a.len());
}

#[test]
fn new_store_has_default_threshold() {
    let kv = KvStore::open(Vec::new()).unwrap();

    assert_eq!(DEFAULT_COMPACTION_THRESHOLD, 100);
    assert_eq!(kv.compaction_threshold, 100);
    assert_eq!(kv.log_length(), 0);
    assert!(kv.log_bytes().is_empty());
}

#[test]
fn set_appends_one_record() {
    let mut kv = KvStore::open(Vec::new()).unwrap();

    kv.set("k1".to_owned(), "v1".to_owned()).unwrap();
    assert_eq!(text(kv.log_bytes()), "{\"Set\":{\"key\":\"k1\",\"value\":\"v1\"}}\n");
    assert_eq!(kv.log_length(), 1);

    kv.set("k2".to_owned(), "v2".to_owned()).unwrap();
    assert_eq!(
        text(kv.log_bytes()),
        "{\"Set\":{\"key\":\"k1\",\"value\":\"v1\"}}\n{\"Set\":{\"key\":\"k2\",\"value\":\"v2\"}}\n"
    );
    assert_eq!(kv.log_length(), 2);
}

#[test]
fn remove_appends_a_tombstone() {
    let mut kv = KvStore::open(Vec::new()).unwrap();

    kv.remove("gone".to_owned()).unwrap();
    assert_eq!(text(kv.log_bytes()), "{\"Rm\":{\"key\":\"gone\"}}\n");
    assert_eq!(kv.log_length(), 1);

    kv.set("k1".to_owned(), "v1".to_owned()).unwrap();
    kv.remove("k1".to_owned()).unwrap();
    assert_eq!(
        text(kv.log_bytes()),
        "{\"Rm\":{\"key\":\"gone\"}}\n{\"Set\":{\"key\":\"k1\",\"value\":\"v1\"}}\n{\"Rm\":{\"key\":\"k1\"}}\n"
    );
    assert_eq!(kv.log_length(), 3);
}

#[test]
fn setting_one_key_leaves_the_others() {
    let mut kv = KvStore::open(Vec::new()).unwrap();

    kv.set("a".to_owned(), "1".to_owned()).unwrap();
    kv.set("b".to_owned(), "2".to_owned()).unwrap();
    kv.set("a".to_owned(), "3".to_owned()).unwrap();
    kv.remove("c".to_owned()).unwrap();

    assert_eq!(kv.get("b".to_owned()).unwrap(), Some("2".to_owned()));
    assert_eq!(kv.get("a".to_owned()).unwrap(), Some("3".to_owned()));
    assert_eq!(kv.get("c".to_owned()).unwrap(), None);
}

#[test]
fn set_after_remove_binds_again() {
    let mut kv = KvStore::open(Vec::new()).unwrap();

    kv.set("k".to_owned(), "old".to_owned()).unwrap();
    kv.remove("k".to_owned()).unwrap();
    kv.set("k".to_owned(), "new".to_owned()).unwrap();

    assert_eq!(kv.get("k".to_owned()).unwrap(), Some("new".to_owned()));
}

#[test]
fn reopening_shows_the_same_mapping() {
    let mut kv = KvStore::open(Vec::new()).unwrap();
    kv.set("k1".to_owned(), "v1".to_owned()).unwrap();
    kv.set("k2".to_owned(), "v2".to_owned()).unwrap();
    kv.set("k1".to_owned(), "v3".to_owned()).unwrap();
    kv.set("k3".to_owned(), "v4".to_owned()).unwrap();
    kv.remove("k2".to_owned()).unwrap();
    kv.remove("never".to_owned()).unwrap();

    let mut again = KvStore::open(kv.log_bytes().to_vec()).unwrap();

    assert_eq!(again.log_length(), 6);
    assert_eq!(again.log_bytes(), kv.log_bytes());
    for key in ["k1", "k2", "k3", "never", "other"] {
        assert_eq!(again.get(key.to_owned()).unwrap(), kv.get(key.to_owned()).unwrap());
    }
    assert_eq!(again.get("k1".to_owned()).unwrap(), Some("v3".to_owned()));
    assert_eq!(again.get("k2".to_owned()).unwrap(), None);
    assert_eq!(again.get("k3".to_owned()).unwrap(), Some("v4".to_owned()));
}

#[test]
fn reopened_store_goes_on_where_the_log_ends() {
    let log = b"{\"Set\":{\"key\":\"a\",\"value\":\"1\"}}\n{\"Rm\":{\"key\":\"a\"}}\n".to_vec();
    let mut kv = KvStore::open(log.clone()).unwrap();

    assert_eq!(kv.get("a".to_owned()).unwrap(), None);
    kv.set("b".to_owned(), "2".to_owned()).unwrap();

    let mut expected = log;
    expected.extend_from_slice(b"{\"Set\":{\"key\":\"b\",\"value\":\"2\"}}\n");
    assert_eq!(kv.log_bytes(), expected.as_slice());
    assert_eq!(kv.log_length(), 3);
    assert_eq!(kv.get("b".to_owned()).unwrap(), Some("2".to_owned()));
}

#[test]
fn open_refuses_a_malformed_record() {
    let log = b"{\"Set\":{\"key\":\"a\",\"value\":\"1\"}}\nnot a record\n".to_vec();

    assert!(matches!(KvStore::open(log), Err(KvError::JsonError(_))));
}

#[test]
fn open_refuses_a_record_without_terminator() {
    let log = b"{\"Set\":{\"key\":\"a\",\"value\":\"1\"}}".to_vec();

    assert!(matches!(KvStore::open(log), Err(KvError::JsonError(_))));
}

#[test]
fn open_refuses_an_empty_line() {
    let log = b"{\"Set\":{\"key\":\"a\",\"value\":\"1\"}}\n\n".to_vec();

    assert!(matches!(KvStore::open(log), Err(KvError::JsonError(_))));
}

#[test]
fn open_refuses_a_bad_escape_in_a_key() {
    let log = b"{\"Rm\":{\"key\":\"\\u12\"}}\n".to_vec();

    assert!(matches!(KvStore::open(log), Err(KvError::JsonError(_))));
}

#[test]
fn keys_and_values_with_special_characters() {
    let mut kv = KvStore::open(Vec::new()).unwrap();
    let key = "a \"quoted\" key\nwith \\ and \u{1}".to_owned();
    let value = "line one\nline two\t\u{e9}\u{4e2d}\u{1f600}".to_owned();

    kv.set(key.clone(), value.clone()).unwrap();
    kv.set("plain".to_owned(), "".to_owned()).unwrap();

    assert_eq!(kv.get(key.clone()).unwrap(), Some(value.clone()));
    assert_eq!(kv.get("plain".to_owned()).unwrap(), Some("".to_owned()));
    assert_eq!(kv.log_bytes().iter().filter(|b| **b == b'\n').count(), 2);

    let mut again = KvStore::open(kv.log_bytes().to_vec()).unwrap();
    assert_eq!(again.get(key).unwrap(), Some(value));
}

#[test]
fn compaction_keeps_one_record_for_each_live_key() {
    let mut kv = KvStore::open(Vec::new()).unwrap();
    kv.set("a".to_owned(), "1".to_owned()).unwrap();
    kv.set("b".to_owned(), "2".to_owned()).unwrap();
    kv.set("a".to_owned(), "3".to_owned()).unwrap();
    kv.set("c".to_owned(), "4".to_owned()).unwrap();
    kv.remove("b".to_owned()).unwrap();
    assert_eq!(kv.log_length(), 5);

    kv.compact().unwrap();

    assert_eq!(
        text(kv.log_bytes()),
        "{\"Set\":{\"key\":\"a\",\"value\":\"3\"}}\n{\"Set\":{\"key\":\"c\",\"value\":\"4\"}}\n"
    );
    assert_eq!(kv.log_length(), 2);
    assert_eq!(kv.get("a".to_owned()).unwrap(), Some("3".to_owned()));
    assert_eq!(kv.get("b".to_owned()).unwrap(), None);
    assert_eq!(kv.get("c".to_owned()).unwrap(), Some("4".to_owned()));
}

#[test]
fn compaction_of_an_empty_store() {
    let mut kv = KvStore::open(Vec::new()).unwrap();
    kv.remove("a".to_owned()).unwrap();

    kv.compact().unwrap();

    assert!(kv.log_bytes().is_empty());
    assert_eq!(kv.log_length(), 0);
    assert_eq!(kv.get("a".to_owned()).unwrap(), None);
}

#[test]
fn store_works_on_after_compaction() {
    let mut kv = KvStore::open(Vec::new()).unwrap();
    kv.set_compaction_threshold(3);
    assert_eq!(kv.compaction_threshold, 3);

    kv.set("a".to_owned(), "1".to_owned()).unwrap();
    kv.set("b".to_owned(), "2".to_owned()).unwrap();
    assert_eq!(kv.log_length(), 2);
    kv.set("a".to_owned(), "3".to_owned()).unwrap();
    assert_eq!(kv.log_length(), 2);
    assert_eq!(
        text(kv.log_bytes()),
        "{\"Set\":{\"key\":\"a\",\"value\":\"3\"}}\n{\"Set\":{\"key\":\"b\",\"value\":\"2\"}}\n"
    );

    kv.set("b".to_owned(), "4".to_owned()).unwrap();
    assert_eq!(kv.get("a".to_owned()).unwrap(), Some("3".to_owned()));
    assert_eq!(kv.get("b".to_owned()).unwrap(), Some("4".to_owned()));
    kv.remove("a".to_owned()).unwrap();
    assert_eq!(kv.get("a".to_owned()).unwrap(), None);

    let mut again = KvStore::open(kv.log_bytes().to_vec()).unwrap();
    assert_eq!(again.get("a".to_owned()).unwrap(), None);
    assert_eq!(again.get("b".to_owned()).unwrap(), Some("4".to_owned()));
}

#[test]
fn overwriting_past_the_threshold_keeps_the_log_short() {
    let mut plain = KvStore::open(Vec::new()).unwrap();
    plain.set_compaction_threshold(usize::MAX);
    let mut compacting = KvStore::open(Vec::new()).unwrap();
    compacting.set_compaction_threshold(4);

    for round in 0..10 {
        let value = format!("v{}", round);
        plain.set("k1".to_owned(), value.clone()).unwrap();
        compacting.set("k1".to_owned(), value).unwrap();
    }

    assert_eq!(plain.log_length(), 10);
    assert!(compacting.log_bytes().len() < plain.log_bytes().len());
    assert_eq!(compacting.get("k1".to_owned()).unwrap(), Some("v9".to_owned()));
    assert_eq!(plain.get("k1".to_owned()).unwrap(), Some("v9".to_owned()));
}

#[test]
fn threshold_zero_compacts_on_every_set() {
    let mut kv = KvStore::open(Vec::new()).unwrap();
    kv.compaction_threshold = 0;

    kv.set("a".to_owned(), "1".to_owned()).unwrap();
    kv.set("a".to_owned(), "2".to_owned()).unwrap();

    assert_eq!(text(kv.log_bytes()), "{\"Set\":{\"key\":\"a\",\"value\":\"2\"}}\n");
    assert_eq!(kv.log_length(), 1);
}

#[test]
fn records_are_json_objects() {
    let mut kv = KvStore::open(Vec::new()).unwrap();
    kv.set("k \"1\"".to_owned(), "v\n1".to_owned()).unwrap();
    kv.remove("k \"1\"".to_owned()).unwrap();

    let log = text(kv.log_bytes());
    let lines: Vec<&str> = log.lines().collect();
    assert_eq!(lines.len(), 2);

    let first: serde_json::Value = serde_json::from_str(lines[0]).unwrap();
    assert_eq!(first["Set"]["key"].as_str(), Some("k \"1\""));
    assert_eq!(first["Set"]["value"].as_str(), Some("v\n1"));
    let second: serde_json::Value = serde_json::from_str(lines[1]).unwrap();
    assert_eq!(second["Rm"]["key"].as_str(), Some("k \"1\""));
}

#[test]
fn errors_convert_into_store_errors() {
    let io = std::io::Error::from(std::io::ErrorKind::PermissionDenied);
    assert!(matches!(KvError::from(io), KvError::IoError(_)));

    let json = serde_json::from_str::<String>("nonsense").unwrap_err();
    assert!(matches!(KvError::from(json), KvError::JsonError(_)));
}

#[test]
fn not_implemented_is_an_error_of_its_own() {
    let error = KvError::NotImplemented;

    assert_eq!(format!("{:?}", error), "NotImplemented");
    assert!(!matches!(error, KvError::IoError(_) | KvError::JsonError(_)));
}
