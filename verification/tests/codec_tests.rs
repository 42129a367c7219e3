use bitkv::data::data_file::DataFile;
use bitkv::data::log_record::{LogRecord, LogRecordType};
use bitkv::errors::Errors;
use bitkv::fio::MemIO;

fn record(key: &str, value: &str, record_type: LogRecordType) -> LogRecord {
    LogRecord {
        key: key.as_bytes().to_vec(),
        value: value.as_bytes().to_vec(),
        record_type,
    }
}

#[test]
fn encode_then_read_back() {
    let rec = record("hello", "world!", LogRecordType::NORMAL);
    let frame = rec.encode();
    assert_eq!(frame.len(), 13 + 5 + 6);

    let file = DataFile::new(0, MemIO::from_vec(frame));
    let read = file.read_log_record(0).unwrap();
    assert_eq!(read.record.key, b"hello".to_vec());
    assert_eq!(read.record.value, b"world!".to_vec());
    assert!(read.record.record_type == LogRecordType::NORMAL);
    assert_eq!(read.size, 13 + 5 + 6);
}

#[test]
fn tombstone_round_trips_with_empty_value() {
    let rec = record("gone", "", LogRecordType::DELETE);
    let frame = rec.encode();
    assert_eq!(frame.len(), 13 + 4);

    let file = DataFile::new(7, MemIO::from_vec(frame));
    let read = file.read_log_record(0).unwrap();
    assert_eq!(read.record.key, b"gone".to_vec());
    assert_eq!(read.record.value, Vec::<u8>::new());
    assert!(read.record.record_type == LogRecordType::DELETE);
}

#[test]
fn two_records_read_back_to_back() {
    let mut bytes = record("a", "1", LogRecordType::NORMAL).encode();
    let second = record("bb", "22", LogRecordType::NORMAL).encode();
    let first_len = bytes.len() as u64;
    bytes.extend_from_slice(&second);

    let file = DataFile::new(0, MemIO::from_vec(bytes));
    let r1 = file.read_log_record(0).unwrap();
    assert_eq!(r1.record.key, b"a".to_vec());
    assert_eq!(r1.size, first_len);
    let r2 = file.read_log_record(r1.size).unwrap();
    assert_eq!(r2.record.key, b"bb".to_vec());
    assert_eq!(r2.record.value, b"22".to_vec());
}

#[test]
fn reading_at_end_of_file_reports_eof() {
    let frame = record("k", "v", LogRecordType::NORMAL).encode();
    let len = frame.len() as u64;
    let file = DataFile::new(0, MemIO::from_vec(frame));
    assert_eq!(file.read_log_record(len).err(), Some(Errors::ReadDataFileEOF));
    assert_eq!(
        file.read_log_record(len + 100).err(),
        Some(Errors::ReadDataFileEOF)
    );
}

#[test]
fn truncated_frame_reports_eof() {
    let mut frame = record("key", "value", LogRecordType::NORMAL).encode();
    frame.truncate(frame.len() - 2);
    let file = DataFile::new(0, MemIO::from_vec(frame));
    assert_eq!(file.read_log_record(0).err(), Some(Errors::ReadDataFileEOF));
}

#[test]
fn corrupted_byte_fails_the_checksum() {
    let mut frame = record("key", "value", LogRecordType::NORMAL).encode();
    frame[10] ^= 0xff;
    let file = DataFile::new(0, MemIO::from_vec(frame));
    assert_eq!(
        file.read_log_record(0).err(),
        Some(Errors::InvalidRecordCrc)
    );
}

#[test]
fn corrupted_type_tag_is_rejected() {
    let mut frame = record("key", "value", LogRecordType::NORMAL).encode();
    frame[0] = 9;
    let file = DataFile::new(0, MemIO::from_vec(frame));
    assert_eq!(
        file.read_log_record(0).err(),
        Some(Errors::InvalidRecordCrc)
    );
}

#[test]
fn write_advances_the_cursor() {
    let mut file: DataFile<MemIO> = DataFile::new(3, MemIO::new());
    assert_eq!(file.get_file_id(), 3);
    assert_eq!(file.get_write_offset(), 0);
    let frame = record("k", "v", LogRecordType::NORMAL).encode();
    let n = file.write(&frame).unwrap();
    assert_eq!(n, frame.len());
    assert_eq!(file.get_write_offset(), frame.len() as u64);
    file.sync().unwrap();
}
