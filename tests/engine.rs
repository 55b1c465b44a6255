use bitcask::data_file::{find_data_files, parse_data_file_id, DataFile};
use bitcask::db::Engine;
use bitcask::errors::Errors;
use bitcask::fio::{IOManager, MemIO};
use bitcask::index::{new_index, Indexer};
use bitcask::log_record::{LogRecord, LogRecordPos, LogRecordType};
use bitcask::options::{check_options, IndexType, Options};

fn opts(size: u64, sync: bool) -> Options {
    Options { dir_path: "db".to_string(), data_file_size: size, sync_writes: sync, index_type: IndexType::BTree }
}

fn reopen(files: Vec<(u32, MemIO)>, o: Options) -> Engine<MemIO> {
    let copies: Vec<(u32, MemIO)> = files.iter().map(|(id, io)| (*id, MemIO::from_bytes(io.bytes()))).collect();
    Engine::open(o, copies).unwrap()
}

fn k(s: &str) -> Vec<u8> {
    s.as_bytes().to_vec()
}

#[test]
fn options_are_checked() {
    assert_eq!(check_options(&opts(4096, false)), None);
    let mut o = opts(4096, false);
    o.dir_path = String::new();
    assert_eq!(check_options(&o), Some(Errors::DirPathIsEmpty));
    assert_eq!(check_options(&opts(0, false)), Some(Errors::DataFileSizeIsInvalid));
    assert!(matches!(Engine::<MemIO>::open(opts(0, false), vec![]), Err(Errors::DataFileSizeIsInvalid)));
}

#[test]
fn data_file_names() {
    assert_eq!(parse_data_file_id("000000001.data"), Some(Ok(1)));
    assert_eq!(parse_data_file_id("42.data"), Some(Ok(42)));
    assert_eq!(parse_data_file_id("4294967295.data"), Some(Ok(4294967295)));
    assert_eq!(parse_data_file_id("4294967296.data"), Some(Err(Errors::DataDirCorrupted)));
    assert_eq!(parse_data_file_id("abc.data"), Some(Err(Errors::DataDirCorrupted)));
    assert_eq!(parse_data_file_id(".data"), Some(Err(Errors::DataDirCorrupted)));
    assert_eq!(parse_data_file_id("1.txt"), None);
    assert_eq!(parse_data_file_id("data"), None);
}

#[test]
fn index_put_get_delete() {
    let mut idx = new_index(IndexType::SkipLisk);
    let pos_a = LogRecordPos { file_id: 1, offset: 10 };
    let pos_b = LogRecordPos { file_id: 2, offset: 20 };
    assert_eq!(idx.get(k("a")), None);
    assert!(idx.put(k("a"), pos_a));
    assert!(idx.put(k("b"), pos_b));
    assert_eq!(idx.get(k("a")), Some(pos_a));
    assert!(idx.put(k("a"), pos_b));
    assert_eq!(idx.get(k("a")), Some(pos_b));
    assert!(idx.delete(k("a")));
    assert!(!idx.delete(k("a")));
    assert_eq!(idx.get(k("a")), None);
    assert_eq!(idx.get(k("b")), Some(pos_b));
}

#[test]
fn data_file_write_and_read() {
    let mut f: DataFile<MemIO> = DataFile::from_io(3, MemIO::from_bytes(vec![])).unwrap();
    let a = LogRecord { key: k("a"), value: k("1"), rec_type: LogRecordType::NORMAL }.encode();
    let b = LogRecord { key: k("bb"), value: k("22"), rec_type: LogRecordType::NORMAL }.encode();
    assert_eq!(f.write(&a), Ok(a.len()));
    assert_eq!(f.write(&b), Ok(b.len()));
    assert_eq!(f.get_write_off(), (a.len() + b.len()) as u64);
    assert_eq!(f.get_file_id(), 3);
    let r = f.read_log_record(a.len() as u64).ok().unwrap();
    assert_eq!(r.record.key, k("bb"));
    assert_eq!(r.size, b.len() as u64);
    assert!(matches!(f.read_log_record(f.get_write_off()), Err(Errors::ReadDataFileEOF)));
    assert!(f.sync().is_ok());
}

#[test]
fn mem_io_reads_at_offset() {
    let mut io = MemIO::open("db", 0).ok().unwrap();
    assert_eq!(io.write(b"key-a"), Ok(5));
    assert_eq!(io.write(b"key-b"), Ok(5));
    let mut buf = [0u8; 5];
    assert_eq!(io.read(&mut buf, 5), Ok(5));
    assert_eq!(&buf, b"key-b");
    assert_eq!(io.read(&mut buf, 8), Ok(2));
    assert_eq!(&buf[..2], b"-b");
    assert_eq!(io.size(), Ok(10));
}

#[test]
fn empty_key_is_rejected() {
    let mut e = Engine::<MemIO>::open(opts(4096, false), vec![]).unwrap();
    assert_eq!(e.put(vec![], k("v")), Err(Errors::KeyIsEmpty));
    assert_eq!(e.get(vec![]), Err(Errors::KeyIsEmpty));
    assert_eq!(e.delete(vec![]), Err(Errors::KeyIsEmpty));
}

#[test]
fn read_your_writes() {
    let mut e = Engine::<MemIO>::open(opts(4096, false), vec![]).unwrap();
    assert_eq!(e.get(k("x")), Err(Errors::KeyNotFound));
    e.put(k("x"), k("1")).unwrap();
    assert_eq!(e.get(k("x")), Ok(k("1")));
    e.put(k("x"), k("2")).unwrap();
    assert_eq!(e.get(k("x")), Ok(k("2")));
    e.put(k("y"), vec![]).unwrap();
    assert_eq!(e.get(k("y")), Ok(vec![]));
    assert_eq!(e.get(k("x")), Ok(k("2")));
}

#[test]
fn delete_is_a_tombstone() {
    let mut e = Engine::<MemIO>::open(opts(4096, false), vec![]).unwrap();
    e.put(k("x"), k("1")).unwrap();
    e.delete(k("x")).unwrap();
    assert_eq!(e.get(k("x")), Err(Errors::KeyNotFound));
    // deleting a key that was never written is not an error
    assert_eq!(e.delete(k("never")), Ok(()));
    assert_eq!(e.get(k("never")), Err(Errors::KeyNotFound));
    let files = e.close();
    let bytes = files[0].1.bytes();
    let put = LogRecord { key: k("x"), value: k("1"), rec_type: LogRecordType::NORMAL }.encode();
    let del = LogRecord { key: k("x"), value: vec![], rec_type: LogRecordType::DELETED }.encode();
    assert_eq!(&bytes[..put.len()], &put[..]);
    assert_eq!(&bytes[put.len()..put.len() + del.len()], &del[..]);
}

#[test]
fn write_offset_is_sum_of_encoded_lengths() {
    let mut e = Engine::<MemIO>::open(opts(1 << 20, false), vec![]).unwrap();
    let mut total = 0usize;
    for i in 0..20u32 {
        let key = format!("key{}", i).into_bytes();
        let value = vec![b'v'; i as usize];
        total += LogRecord { key: key.clone(), value: value.clone(), rec_type: LogRecordType::NORMAL }.encode().len();
        e.put(key.clone(), value).unwrap();
        if i % 3 == 0 {
            total += LogRecord { key: key.clone(), value: vec![], rec_type: LogRecordType::DELETED }.encode().len();
            e.delete(key).unwrap();
        }
    }
    let files = e.close();
    assert_eq!(files.len(), 1);
    assert_eq!(files[0].1.bytes().len(), total);
}

#[test]
fn concrete_scenario_survives_reopen() {
    let o = opts(4096, true);
    let mut e = Engine::<MemIO>::open(o.clone(), vec![]).unwrap();
    e.put(k("a"), k("1")).unwrap();
    e.put(k("b"), k("2")).unwrap();
    e.delete(k("a")).unwrap();
    assert_eq!(e.get(k("a")), Err(Errors::KeyNotFound));
    assert_eq!(e.get(k("b")), Ok(k("2")));
    let files = e.close();
    let e2 = reopen(files, o);
    assert_eq!(e2.get(k("a")), Err(Errors::KeyNotFound));
    assert_eq!(e2.get(k("b")), Ok(k("2")));
}

#[test]
fn rotation_boundary() {
    let o = opts(64, false);
    let mut e = Engine::<MemIO>::open(o.clone(), vec![]).unwrap();
    let keys = ["key-0000000001", "key-0000000002", "key-0000000003"];
    for (i, key) in keys.iter().enumerate() {
        let value = format!("value000{}", i + 1).into_bytes();
        assert_eq!(LogRecord { key: k(key), value: value.clone(), rec_type: LogRecordType::NORMAL }.encode().len(), 30);
        e.put(k(key), value).unwrap();
    }
    for (i, key) in keys.iter().enumerate() {
        assert_eq!(e.get(k(key)), Ok(format!("value000{}", i + 1).into_bytes()));
    }
    let files = e.close();
    assert_eq!(files.len(), 2);
    assert_eq!(files[0].0, 0);
    assert_eq!(files[1].0, 1);
    assert_eq!(files[0].1.bytes().len(), 60);
    assert_eq!(files[1].1.bytes().len(), 30);
    let e2 = reopen(files, o);
    for (i, key) in keys.iter().enumerate() {
        assert_eq!(e2.get(k(key)), Ok(format!("value000{}", i + 1).into_bytes()));
    }
}

#[test]
fn recovery_keeps_every_key() {
    let o = opts(100, false);
    let mut e = Engine::<MemIO>::open(o.clone(), vec![]).unwrap();
    for i in 0..30u32 {
        e.put(format!("k{}", i % 7).into_bytes(), format!("v{}", i).into_bytes()).unwrap();
        if i % 5 == 4 {
            e.delete(format!("k{}", i % 3).into_bytes()).unwrap();
        }
    }
    let before: Vec<_> = (0..8u32).map(|i| e.get(format!("k{}", i).into_bytes())).collect();
    let files = e.close();
    assert!(files.len() > 1);
    let e2 = reopen(files, o);
    let after: Vec<_> = (0..8u32).map(|i| e2.get(format!("k{}", i).into_bytes())).collect();
    assert_eq!(before, after);
}

#[test]
fn crash_tail_is_cut_and_overwritten() {
    let o = opts(4096, true);
    let mut e = Engine::<MemIO>::open(o.clone(), vec![]).unwrap();
    e.put(k("a"), k("1")).unwrap();
    e.put(k("b"), k("2")).unwrap();
    let files = e.close();
    let mut bytes = files[0].1.bytes();
    let rec_a = LogRecord { key: k("a"), value: k("1"), rec_type: LogRecordType::NORMAL }.encode();
    bytes.truncate(bytes.len() - 2);
    let mut e2 = Engine::open(o.clone(), vec![(0, MemIO::from_bytes(bytes))]).unwrap();
    assert_eq!(e2.get(k("a")), Ok(k("1")));
    assert_eq!(e2.get(k("b")), Err(Errors::KeyNotFound));
    e2.put(k("c"), k("3")).unwrap();
    let files = e2.close();
    let rec_c = LogRecord { key: k("c"), value: k("3"), rec_type: LogRecordType::NORMAL }.encode();
    let mut expected = rec_a.clone();
    expected.extend_from_slice(&rec_c);
    assert_eq!(files[0].1.bytes(), expected);
}

#[test]
fn corrupt_tail_of_active_file_is_tolerated() {
    let o = opts(4096, false);
    let rec_a = LogRecord { key: k("a"), value: k("1"), rec_type: LogRecordType::NORMAL }.encode();
    let mut bytes = rec_a.clone();
    let mut bad = LogRecord { key: k("b"), value: k("2"), rec_type: LogRecordType::NORMAL }.encode();
    let last = bad.len() - 1;
    bad[last] ^= 1;
    bytes.extend_from_slice(&bad);
    let e = Engine::open(o, vec![(0, MemIO::from_bytes(bytes))]).unwrap();
    assert_eq!(e.get(k("a")), Ok(k("1")));
    assert_eq!(e.get(k("b")), Err(Errors::KeyNotFound));
}

#[test]
fn corrupt_older_file_fails_open() {
    let o = opts(4096, false);
    let mut bad = LogRecord { key: k("b"), value: k("2"), rec_type: LogRecordType::NORMAL }.encode();
    bad[3] ^= 1;
    let r = Engine::open(o, vec![(0, MemIO::from_bytes(bad)), (1, MemIO::from_bytes(vec![]))]);
    assert!(matches!(r, Err(Errors::InvalidLogRecordCrc)));
}

#[test]
fn unordered_ids_fail_open() {
    let o = opts(4096, false);
    let r = Engine::open(o, vec![(2, MemIO::from_bytes(vec![])), (1, MemIO::from_bytes(vec![]))]);
    assert!(matches!(r, Err(Errors::DataDirCorrupted)));
}

#[test]
fn error_messages() {
    assert_eq!(Errors::KeyNotFound.message(), "the key is not found in database");
    assert_eq!(Errors::KeyIsEmpty.message(), "the key is empty");
}

#[test]
fn index_kinds_behave_alike() {
    let mut a = new_index(IndexType::BTree);
    let mut b = new_index(IndexType::SkipLisk);
    let pos = LogRecordPos { file_id: 0, offset: 7 };
    for key in ["x", "y", "x", "z"] {
        assert_eq!(a.put(k(key), pos), b.put(k(key), pos));
    }
    assert_eq!(a.delete(k("y")), b.delete(k("y")));
    assert_eq!(a.delete(k("w")), b.delete(k("w")));
    for key in ["x", "y", "z", "w"] {
        assert_eq!(a.get(k(key)), b.get(k(key)));
    }
}

#[test]
fn read_past_end_is_end_of_log() {
    let f: DataFile<MemIO> = DataFile::from_io(0, MemIO::from_bytes(vec![1, 2])).unwrap();
    assert!(matches!(f.read_log_record(2), Err(Errors::ReadDataFileEOF)));
    assert!(matches!(f.read_log_record(50), Err(Errors::ReadDataFileEOF)));
    assert!(matches!(f.read_log_record(0), Err(Errors::ReadDataFileEOF)));
    assert_eq!(f.get_write_off(), 2);
}

#[test]
fn cut_record_in_older_file_fails_open() {
    let o = opts(4096, false);
    let mut bytes = LogRecord { key: k("a"), value: k("1"), rec_type: LogRecordType::NORMAL }.encode();
    bytes.truncate(bytes.len() - 1);
    let r = Engine::open(o, vec![(0, MemIO::from_bytes(bytes)), (1, MemIO::from_bytes(vec![]))]);
    assert!(matches!(r, Err(Errors::IncompleteLogRecord)));
}

#[test]
fn rotation_past_last_id_fails() {
    let o = opts(8, false);
    let mut e = Engine::open(o, vec![(u32::MAX, MemIO::from_bytes(vec![]))]).unwrap();
    assert_eq!(e.put(k("key"), k("value")), Err(Errors::DataFileIdExhausted));
    assert_eq!(e.get(k("key")), Err(Errors::KeyNotFound));
}

#[test]
fn data_files_found_in_id_order() {
    let names = vec!["10.data", "notes.txt", "2.data", "000000003.data", "LOCK"];
    assert_eq!(find_data_files(&names), Ok(vec![(2, 2), (3, 3), (10, 0)]));
    let bad = vec!["1.data", "x.data"];
    assert_eq!(find_data_files(&bad), Err(Errors::DataDirCorrupted));
    let none: Vec<&str> = vec![];
    assert_eq!(find_data_files(&none), Ok(vec![]));
}
