use kv::index::Index;
use kv::log::{Log, OffsetRange};
use kv::KvError;

#[test]
fn append_returns_the_range_written() {
    let mut log = Log::from_bytes(Vec::new());
    assert_eq!(log.len(), 0);

    let first = log.append(b"one\n");
    assert_eq!(first, OffsetRange { start: 0, end: 4 });
    let second = log.append(b"three\n");
    assert_eq!(second, OffsetRange { start: 4, end: 10 });
    let third = log.append(b"");
    assert_eq!(third, OffsetRange { start: 10, end: 10 });

    assert_eq!(log.len(), 10);
    assert_eq!(log.as_bytes(), b"one\nthree\n");
}

#[test]
fn read_returns_the_bytes_of_the_range() {
    let log = Log::from_bytes(b"one\nthree\n".to_vec());

    assert_eq!(log.read(OffsetRange { start: 0, end: 4 }).unwrap(), b"one\n");
    assert_eq!(log.read(OffsetRange { start: 4, end: 10 }).unwrap(), b"three\n");
    assert_eq!(log.read(OffsetRange { start: 10, end: 10 }).unwrap(), b"");
    assert_eq!(log.read(OffsetRange { start: 0, end: 10 }).unwrap(), b"one\nthree\n");
}

#[test]
fn read_past_the_end_is_a_short_read() {
    let log = Log::from_bytes(b"one\n".to_vec());

    match log.read(OffsetRange { start: 0, end: 5 }) {
        Err(KvError::IoError(error)) => {
            assert_eq!(error.kind(), std::io::ErrorKind::UnexpectedEof)
        }
        _ => panic!("a short read must be an IoError"),
    }
    assert!(matches!(log.read(OffsetRange { start: 3, end: 2 }), Err(KvError::IoError(_))));
    assert!(matches!(log.read(OffsetRange { start: 9, end: 9 }), Err(KvError::IoError(_))));
}

#[test]
fn truncate_and_replace_swaps_the_content() {
    let mut log = Log::from_bytes(b"a long first content\n".to_vec());

    log.truncate_and_replace(b"short\n".to_vec());

    assert_eq!(log.as_bytes(), b"short\n");
    assert_eq!(log.append(b"x"), OffsetRange { start: 6, end: 7 });
}

fn range(start: usize, end: usize) -> OffsetRange {
    OffsetRange { start, end }
}

#[test]
fn index_binds_and_rebinds() {
    let mut index = Index::new();
    assert_eq!(index.len(), 0);
    assert_eq!(index.get(&"a".to_owned()), None);

    index.insert("a".to_owned(), range(0, 10));
    index.insert("b".to_owned(), range(10, 25));
    index.insert("a".to_owned(), range(25, 40));

    assert_eq!(index.len(), 2);
    assert_eq!(index.find(&"a".to_owned()), Some(0));
    assert_eq!(index.find(&"b".to_owned()), Some(1));
    assert_eq!(index.find(&"c".to_owned()), None);
    assert_eq!(index.get(&"a".to_owned()), Some(range(25, 40)));
    assert_eq!(index.get(&"b".to_owned()), Some(range(10, 25)));
    assert_eq!(index.entry(1).key, "b");
    assert_eq!(index.entry(1).range, range(10, 25));
}

#[test]
fn index_removal_keeps_the_order_of_the_rest() {
    let mut index = Index::new();
    index.insert("a".to_owned(), range(0, 1));
    index.insert("b".to_owned(), range(1, 2));
    index.insert("c".to_owned(), range(2, 3));

    index.remove(&"a".to_owned());
    index.remove(&"missing".to_owned());

    assert_eq!(index.len(), 2);
    assert_eq!(index.entry(0).key, "b");
    assert_eq!(index.entry(1).key, "c");
    assert_eq!(index.get(&"a".to_owned()), None);
}

#[test]
fn index_repack_lays_the_ranges_end_to_end() {
    let mut index = Index::new();
    index.insert("a".to_owned(), range(40, 50));
    index.insert("b".to_owned(), range(7, 10));
    index.insert("c".to_owned(), range(100, 101));

    index.repack();

    assert_eq!(index.get(&"a".to_owned()), Some(range(0, 10)));
    assert_eq!(index.get(&"b".to_owned()), Some(range(10, 13)));
    assert_eq!(index.get(&"c".to_owned()), Some(range(13, 14)));
}
