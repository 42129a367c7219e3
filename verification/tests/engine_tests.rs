use bytes::Bytes;

use bitkv::data::data_file::DataFile;
use bitkv::data::log_record::{LogRecord, LogRecordType};
use bitkv::db::{data_file_ids, Engine};
use bitkv::errors::Errors;
use bitkv::fio::MemIO;
use bitkv::options::{IndexType, Options};

fn opts(dir: &str, file_size: u64, sync: bool) -> Options {
    Options {
        dir_path: String::from(dir),
        file_size,
        sync,
        index_type: IndexType::BTree,
    }
}

fn open_mem(dir: &str, file_size: u64, sync: bool, files: Vec<DataFile<MemIO>>) -> Engine<MemIO> {
    Engine::open(opts(dir, file_size, sync), files).unwrap()
}

#[test]
fn open_empty_dir_serves_empty_state() {
    let engine = open_mem("/tmp/kv0", 1024, false, Vec::new());
    let res = engine.get(Bytes::from("missing"));
    assert_eq!(res, Err(Errors::RecordNotFound));
}

#[test]
fn empty_key_is_rejected() {
    let mut engine = open_mem("/tmp/kv0", 1024, false, Vec::new());
    assert_eq!(
        engine.put(Bytes::from(""), Bytes::from("v")),
        Err(Errors::KeyIsEmpty)
    );
    assert_eq!(engine.get(Bytes::from("")), Err(Errors::KeyIsEmpty));
    assert_eq!(engine.delete(Bytes::from("")), Err(Errors::KeyIsEmpty));
}

#[test]
fn invalid_options_are_rejected() {
    let r = Engine::<MemIO>::open(opts("", 1024, false), Vec::new());
    assert!(matches!(r, Err(Errors::DirPathIsEmpty)));
    let r = Engine::<MemIO>::open(opts("/tmp/kv", 0, false), Vec::new());
    assert!(matches!(r, Err(Errors::FileSizeTooSmall)));
}

#[test]
fn put_get_and_reopen() {
    let mut engine = open_mem("/tmp/kv1", 1024, false, Vec::new());
    engine.put(Bytes::from("k"), Bytes::from("v")).unwrap();
    assert_eq!(engine.get(Bytes::from("k")).unwrap(), Bytes::from("v"));

    let files = engine.close();
    let engine = open_mem("/tmp/kv1", 1024, false, files);
    assert_eq!(engine.get(Bytes::from("k")).unwrap(), Bytes::from("v"));
}

#[test]
fn put_overwrite_returns_latest() {
    let mut engine = open_mem("/tmp/kv1", 1024, false, Vec::new());
    engine.put(Bytes::from("k"), Bytes::from("v1")).unwrap();
    engine.put(Bytes::from("k"), Bytes::from("v2")).unwrap();
    assert_eq!(engine.get(Bytes::from("k")).unwrap(), Bytes::from("v2"));
}

#[test]
fn delete_and_reopen() {
    let mut engine = open_mem("/tmp/kv2", 1024, false, Vec::new());
    engine.put(Bytes::from("a"), Bytes::from("1")).unwrap();
    engine.put(Bytes::from("b"), Bytes::from("2")).unwrap();
    engine.delete(Bytes::from("a")).unwrap();
    assert_eq!(engine.get(Bytes::from("a")), Err(Errors::RecordNotFound));
    assert_eq!(engine.get(Bytes::from("b")).unwrap(), Bytes::from("2"));

    let files = engine.close();
    let engine = open_mem("/tmp/kv2", 1024, false, files);
    assert_eq!(engine.get(Bytes::from("a")), Err(Errors::RecordNotFound));
    assert_eq!(engine.get(Bytes::from("b")).unwrap(), Bytes::from("2"));
}

#[test]
fn delete_is_idempotent() {
    let mut engine = open_mem("/tmp/kv2", 1024, false, Vec::new());
    engine.put(Bytes::from("k"), Bytes::from("v")).unwrap();
    engine.delete(Bytes::from("k")).unwrap();
    engine.delete(Bytes::from("k")).unwrap();
    assert_eq!(engine.get(Bytes::from("k")), Err(Errors::RecordNotFound));
    engine.put(Bytes::from("k"), Bytes::from("w")).unwrap();
    assert_eq!(engine.get(Bytes::from("k")).unwrap(), Bytes::from("w"));
}

// Each record below encodes to 13 overhead + 2 key bytes + 5 value bytes =
// 20 bytes on disk.
fn key20(i: usize) -> Bytes {
    Bytes::from(format!("k{}", i))
}

fn val20(i: usize) -> Bytes {
    Bytes::from(format!("v{:04}", i))
}

#[test]
fn rotation_produces_multiple_files() {
    let mut engine = open_mem("/tmp/kv3", 64, false, Vec::new());
    for i in 0..10 {
        engine.put(key20(i), val20(i)).unwrap();
    }
    for i in 0..10 {
        assert_eq!(engine.get(key20(i)).unwrap(), val20(i));
    }
    let files = engine.close();
    assert!(files.len() >= 3);
    for (i, f) in files.iter().enumerate() {
        assert_eq!(f.get_file_id(), i as u32);
    }
    assert!(files.last().unwrap().get_file_id() >= 2);

    let engine = open_mem("/tmp/kv3", 64, false, files);
    for i in 0..10 {
        assert_eq!(engine.get(key20(i)).unwrap(), val20(i));
    }
}

#[test]
fn record_exactly_filling_the_file_does_not_rotate() {
    // Two 20-byte records exactly fill a 40-byte file: no rotation.
    let mut engine = open_mem("/tmp/kv3", 40, false, Vec::new());
    engine.put(key20(0), val20(0)).unwrap();
    engine.put(key20(1), val20(1)).unwrap();
    let files = engine.close();
    assert_eq!(files.len(), 1);

    // One byte less of room and the second record triggers rotation.
    let mut engine = open_mem("/tmp/kv3", 39, false, Vec::new());
    engine.put(key20(0), val20(0)).unwrap();
    engine.put(key20(1), val20(1)).unwrap();
    let files = engine.close();
    assert_eq!(files.len(), 2);
    assert_eq!(files[0].get_file_id(), 0);
    assert_eq!(files[1].get_file_id(), 1);
}

#[test]
fn truncated_trailing_record_is_discarded_on_reopen() {
    let mut engine = open_mem("/tmp/kv4", 1024, false, Vec::new());
    engine.put(Bytes::from("x"), Bytes::from("1")).unwrap();
    let files = engine.close();

    // Simulate a crash mid-write: chop 3 bytes off the active file.
    let mut raw: Vec<Vec<u8>> = files.into_iter().map(|f| f.into_io().into_vec()).collect();
    let last = raw.last_mut().unwrap();
    let new_len = last.len() - 3;
    last.truncate(new_len);
    let files: Vec<DataFile<MemIO>> = raw
        .into_iter()
        .enumerate()
        .map(|(i, data)| DataFile::new(i as u32, MemIO::from_vec(data)))
        .collect();

    let mut engine = open_mem("/tmp/kv4", 1024, false, files);
    assert_eq!(engine.get(Bytes::from("x")), Err(Errors::RecordNotFound));
    engine.put(Bytes::from("x"), Bytes::from("2")).unwrap();
    assert_eq!(engine.get(Bytes::from("x")).unwrap(), Bytes::from("2"));

    let files = engine.close();
    let engine = open_mem("/tmp/kv4", 1024, false, files);
    assert_eq!(engine.get(Bytes::from("x")).unwrap(), Bytes::from("2"));
}

#[test]
fn synced_write_survives_unclean_shutdown() {
    let mut engine = open_mem("/tmp/kv5", 1024, true, Vec::new());
    engine.put(Bytes::from("k"), Bytes::from("v")).unwrap();
    // No clean shutdown: take the raw files as the process dies.
    let files = engine.close();
    let engine = open_mem("/tmp/kv5", 1024, true, files);
    assert_eq!(engine.get(Bytes::from("k")).unwrap(), Bytes::from("v"));
}

#[test]
fn bulk_puts_fill_the_expected_number_of_files() {
    // 100 records of 20 encoded bytes each into 100-byte files: 5 records
    // per file, 2000 bytes in all, 20 files.
    let mut engine = open_mem("/tmp/kv6", 100, false, Vec::new());
    let mut keys: Vec<Bytes> = Vec::new();
    for i in 0..100 {
        let key = Bytes::from(format!("{:02}", i));
        let value = Bytes::from(format!("v{:04}", i));
        engine.put(key.clone(), value).unwrap();
        keys.push(key);
    }
    for (i, key) in keys.iter().enumerate() {
        assert_eq!(
            engine.get(key.clone()).unwrap(),
            Bytes::from(format!("v{:04}", i))
        );
    }
    let files = engine.close();
    assert_eq!(files.len(), 20);
}

#[test]
fn data_file_ids_sorts_and_filters() {
    let names: Vec<Vec<u8>> = vec![
        b"foo.txt".to_vec(),
        b"2.data".to_vec(),
        b"0.data".to_vec(),
        b"readme".to_vec(),
        b"1.data".to_vec(),
    ];
    let ids = data_file_ids(&names).unwrap();
    assert_eq!(ids, vec![0, 1, 2]);
}

#[test]
fn non_numeric_data_file_name_is_fatal() {
    let names: Vec<Vec<u8>> = vec![b"abc.data".to_vec()];
    assert_eq!(data_file_ids(&names), Err(Errors::DataDirectoryInvalid));

    let names: Vec<Vec<u8>> = vec![b".data".to_vec()];
    assert_eq!(data_file_ids(&names), Err(Errors::DataDirectoryInvalid));

    let names: Vec<Vec<u8>> = vec![b"99999999999.data".to_vec()];
    assert_eq!(data_file_ids(&names), Err(Errors::DataDirectoryInvalid));
}

#[test]
fn tombstone_for_never_written_key_aborts_open() {
    let rec = LogRecord {
        key: b"ghost".to_vec(),
        value: Vec::new(),
        record_type: LogRecordType::DELETE,
    };
    let file = DataFile::new(0, MemIO::from_vec(rec.encode()));
    let r = Engine::open(opts("/tmp/kv7", 1024, false), vec![file]);
    assert!(matches!(r, Err(Errors::IndexUpdateError)));
}
