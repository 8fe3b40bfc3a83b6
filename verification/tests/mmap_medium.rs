use bitcask_core::data_file::DataFile;
use bitcask_core::errors::Errors;
use bitcask_core::fio::MMapIO;
use bitcask_core::log_record::LogRecord;
use bitcask_core::log_record::LogRecordType;

fn read_only_map_of(bytes: &[u8]) -> memmap2::Mmap {
    let mut m = memmap2::MmapMut::map_anon(bytes.len().max(1)).unwrap();
    m[..bytes.len()].copy_from_slice(bytes);
    m.make_read_only().unwrap()
}

#[test]
fn mmap_segment_reads_records() {
    let rec = LogRecord {
        key: b"foo".to_vec(),
        value: b"bar".to_vec(),
        rec_type: LogRecordType::NORMAL,
    };
    let mut enc = rec.encode();
    // A zeroed tail past the record, as a real segment file has.
    enc.extend_from_slice(&[0u8; 16]);
    let map = read_only_map_of(&enc);
    let df = DataFile::new(4, MMapIO::new(map));
    let rr = df.read_log_record(0).unwrap();
    assert_eq!(rr.record.key, b"foo".to_vec());
    assert_eq!(rr.record.value, b"bar".to_vec());
    assert_eq!(rr.size, 13);
    assert_eq!(df.read_log_record(13).unwrap_err(), Errors::EndOfFile);
}

#[test]
fn mmap_read_past_end_is_eof() {
    let map = read_only_map_of(&[1u8; 4]);
    let df = DataFile::new(0, MMapIO::new(map));
    // The header read runs past the mapped length.
    assert_eq!(df.read_log_record(0).unwrap_err(), Errors::EndOfFile);
    assert_eq!(df.read_log_record(100).unwrap_err(), Errors::EndOfFile);
}

#[test]
fn mmap_medium_rejects_writes_sync_size() {
    let map = read_only_map_of(b"irrelevant");
    let mut df = DataFile::new(2, MMapIO::new(map));
    assert_eq!(
        df.write(&b"data".to_vec()).unwrap_err(),
        Errors::UnsupportedOperation
    );
    assert_eq!(df.get_write_off(), 0);
    assert_eq!(df.sync().unwrap_err(), Errors::UnsupportedOperation);
    assert_eq!(df.file_size().unwrap_err(), Errors::UnsupportedOperation);
}

#[test]
fn rebind_medium_keeps_id_and_offset() {
    let rec = LogRecord {
        key: b"k".to_vec(),
        value: b"v".to_vec(),
        rec_type: LogRecordType::DELETED,
    };
    let mut enc = rec.encode();
    let record_len = enc.len();
    // A zeroed tail past the record, as a real segment file has.
    enc.extend_from_slice(&[0u8; 16]);
    let map = read_only_map_of(&enc);
    let mut df = DataFile::new(8, MMapIO::new(map));
    df.set_write_off(record_len as u64);
    let map2 = read_only_map_of(&enc);
    df.set_io_manager(MMapIO::new(map2));
    assert_eq!(df.get_file_id(), 8);
    assert_eq!(df.get_write_off(), record_len as u64);
    let rr = df.read_log_record(0).unwrap();
    assert_eq!(rr.record.rec_type, LogRecordType::DELETED);
}
