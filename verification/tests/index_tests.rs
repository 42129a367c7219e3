use bitkv::data::log_record::LogRecordPos;
use bitkv::index::btree::BTree;
use bitkv::index::Indexer;

#[test]
fn test_put() {
    let mut btree = BTree::new();
    let result1 = btree.put(
        "".as_bytes().to_vec(),
        LogRecordPos {
            file_id: 1,
            offset: 10,
        },
    );
    assert_eq!(result1, true);

    let result2 = btree.put(
        "aa".as_bytes().to_vec(),
        LogRecordPos {
            file_id: 2,
            offset: 20,
        },
    );
    assert_eq!(result2, true);
}

#[test]
fn test_get() {
    let mut btree = BTree::new();
    btree.put(
        "".as_bytes().to_vec(),
        LogRecordPos {
            file_id: 1,
            offset: 10,
        },
    );
    btree.put(
        "aa".as_bytes().to_vec(),
        LogRecordPos {
            file_id: 2,
            offset: 20,
        },
    );

    let result1 = btree.get("".as_bytes().to_vec());
    assert_eq!(
        result1,
        Some(LogRecordPos {
            file_id: 1,
            offset: 10
        })
    );

    let result2 = btree.get("aa".as_bytes().to_vec());
    assert_eq!(
        result2,
        Some(LogRecordPos {
            file_id: 2,
            offset: 20
        })
    );
}

#[test]
fn test_delete() {
    let mut btree = BTree::new();
    btree.put(
        "".as_bytes().to_vec(),
        LogRecordPos {
            file_id: 1,
            offset: 10,
        },
    );
    btree.put(
        "aa".as_bytes().to_vec(),
        LogRecordPos {
            file_id: 2,
            offset: 20,
        },
    );

    let result1 = btree.delete("".as_bytes().to_vec());
    assert_eq!(result1, true);

    let result2 = btree.delete("aa".as_bytes().to_vec());
    assert_eq!(result2, true);

    let res1 = btree.get("".as_bytes().to_vec());
    assert_eq!(res1, None);

    let res2 = btree.get("aa".as_bytes().to_vec());
    assert_eq!(res2, None);

    let result3 = btree.delete("not exist".as_bytes().to_vec());
    assert_eq!(result3, false);
}
