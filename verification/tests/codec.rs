use bitcask_core::data_file::get_data_file_name;
use bitcask_core::data_file::DataFile;
use bitcask_core::errors::Errors;
use bitcask_core::fio::MemIO;
use bitcask_core::log_record::decode_log_record_pos;
use bitcask_core::log_record::max_log_record_header_size;
use bitcask_core::log_record::try_decode_log_record_pos;
use bitcask_core::log_record::LogRecord;
use bitcask_core::log_record::LogRecordPos;
use bitcask_core::log_record::LogRecordType;

fn record(key: &[u8], value: &[u8], rec_type: LogRecordType) -> LogRecord {
    LogRecord { key: key.to_vec(), value: value.to_vec(), rec_type }
}

#[test]
fn write_then_read_record_at_zero() {
    let mut df = DataFile::new(1, MemIO::new());
    let rec = record(b"foo", b"bar", LogRecordType::NORMAL);
    let enc = rec.encode();
    assert_eq!(enc.len(), 13);
    let n = df.write(&enc).unwrap();
    assert_eq!(n, 13);
    assert_eq!(df.get_write_off(), 13);
    let rr = df.read_log_record(0).unwrap();
    assert_eq!(rr.size, 13);
    assert_eq!(rr.record.key, b"foo".to_vec());
    assert_eq!(rr.record.value, b"bar".to_vec());
    assert_eq!(rr.record.rec_type, LogRecordType::NORMAL);
}

#[test]
fn round_trip_all_kinds() {
    for rec_type in [
        LogRecordType::NORMAL,
        LogRecordType::DELETED,
        LogRecordType::TXNFINISHED,
    ] {
        let rec = record(b"some-key", b"some value bytes", rec_type);
        let mut df = DataFile::new(9, MemIO::new());
        let enc = rec.encode();
        df.write(&enc).unwrap();
        let rr = df.read_log_record(0).unwrap();
        assert_eq!(rr.record.key, rec.key);
        assert_eq!(rr.record.value, rec.value);
        assert_eq!(rr.record.rec_type, rec_type);
        assert_eq!(rr.size, enc.len());
    }
}

#[test]
fn round_trip_empty_key_nonempty_value() {
    let rec = record(b"", b"v", LogRecordType::NORMAL);
    let mut df = DataFile::new(0, MemIO::new());
    df.write(&rec.encode()).unwrap();
    let rr = df.read_log_record(0).unwrap();
    assert_eq!(rr.record.key, b"".to_vec());
    assert_eq!(rr.record.value, b"v".to_vec());
}

#[test]
fn crc_matches_crc32fast() {
    let rec = record(b"foo", b"bar", LogRecordType::NORMAL);
    let enc = rec.encode();
    let span = &enc[..enc.len() - 4];
    let crc = crc32fast::hash(span);
    assert_eq!(enc[enc.len() - 4..].to_vec(), crc.to_be_bytes().to_vec());
    assert_eq!(rec.get_crc(), crc);
    let hand_built = vec![1u8, 3, 3, b'f', b'o', b'o', b'b', b'a', b'r'];
    assert_eq!(rec.get_crc(), crc32fast::hash(&hand_built));
    assert_eq!(crc32fast::hash(b"123456789"), 0xCBF43926);
}

#[test]
fn flipping_any_bit_fails_decode() {
    let rec = record(b"foo", b"bar", LogRecordType::NORMAL);
    let enc = rec.encode();
    for byte in 0..enc.len() {
        for bit in 0..8 {
            let mut corrupted = enc.clone();
            corrupted[byte] ^= 1u8 << bit;
            let mut df = DataFile::new(0, MemIO::from_bytes(corrupted));
            let r = df.read_log_record(0);
            assert!(r.is_err(), "byte {} bit {} decoded", byte, bit);
            if byte >= 3 {
                assert_eq!(r.unwrap_err(), Errors::CorruptRecord);
            }
        }
    }
}

#[test]
fn zero_region_reads_as_eof() {
    let df = DataFile::new(0, MemIO::from_bytes(vec![0u8; 64]));
    assert_eq!(df.read_log_record(0).unwrap_err(), Errors::EndOfFile);
    assert_eq!(df.read_log_record(17).unwrap_err(), Errors::EndOfFile);
    let empty = DataFile::new(0, MemIO::new());
    assert_eq!(empty.read_log_record(0).unwrap_err(), Errors::EndOfFile);
}

#[test]
fn eof_comes_after_last_record() {
    let mut df = DataFile::new(0, MemIO::new());
    let rec = record(b"k", b"v", LogRecordType::NORMAL);
    let enc = rec.encode();
    df.write(&enc).unwrap();
    let rr = df.read_log_record(0).unwrap();
    assert_eq!(df.read_log_record(rr.size as u64).unwrap_err(), Errors::EndOfFile);
}

#[test]
fn unknown_kind_byte_is_typed_error() {
    assert_eq!(
        LogRecordType::from_u8(5).unwrap_err(),
        Errors::UnknownRecordKind
    );
    assert_eq!(LogRecordType::from_u8(1).unwrap(), LogRecordType::NORMAL);
    assert_eq!(LogRecordType::from_u8(2).unwrap(), LogRecordType::DELETED);
    assert_eq!(LogRecordType::from_u8(3).unwrap(), LogRecordType::TXNFINISHED);
    // A record whose kind byte is unknown but whose CRC is right still
    // decodes as UnknownRecordKind, not as corruption.
    let mut body = vec![9u8, 3, 3];
    body.extend_from_slice(b"foobar");
    let crc = crc32fast::hash(&body);
    let mut bytes = body.clone();
    bytes.extend_from_slice(&crc.to_be_bytes());
    let df = DataFile::new(0, MemIO::from_bytes(bytes));
    assert_eq!(df.read_log_record(0).unwrap_err(), Errors::UnknownRecordKind);
}

#[test]
fn monotonic_offsets_across_appends() {
    let mut df = DataFile::new(3, MemIO::new());
    let a = vec![1u8; 13];
    let b = vec![2u8; 5];
    let c = vec![3u8; 7];
    let mut total = 0u64;
    let mut starts = Vec::new();
    for buf in [&a, &b, &c] {
        let start = df.get_write_off();
        assert_eq!(start, total);
        let n = df.write(buf).unwrap();
        assert_eq!(n, buf.len());
        total += n as u64;
        starts.push((start, n as u64));
        assert_eq!(df.get_write_off(), total);
    }
    for w in starts.windows(2) {
        assert!(w[0].0 + w[0].1 <= w[1].0);
    }
}

#[test]
fn pos_round_trip_compact_triple() {
    let pos = LogRecordPos { file_id: 7, offset: 1024, size: 37 };
    let enc = pos.encode();
    let back = decode_log_record_pos(enc);
    assert_eq!(back, pos);
}

#[test]
fn pos_round_trip_extremes() {
    for pos in [
        LogRecordPos { file_id: 0, offset: 0, size: 0 },
        LogRecordPos { file_id: u32::MAX, offset: u64::MAX, size: u32::MAX },
        LogRecordPos { file_id: 300, offset: 1 << 40, size: 128 },
    ] {
        assert_eq!(decode_log_record_pos(pos.encode()), pos);
    }
}

#[test]
fn hint_record_carries_pos_encoding() {
    let mut df = DataFile::new_hint_file(MemIO::new());
    assert_eq!(df.get_file_id(), 0);
    let pos = LogRecordPos { file_id: 2, offset: 4096, size: 99 };
    df.write_hint_record(b"user-key".to_vec(), pos).unwrap();
    let rr = df.read_log_record(0).unwrap();
    assert_eq!(rr.record.key, b"user-key".to_vec());
    assert_eq!(rr.record.rec_type, LogRecordType::NORMAL);
    assert_eq!(rr.record.value, pos.encode());
    assert_eq!(decode_log_record_pos(rr.record.value), pos);
}

#[test]
fn data_file_names_are_zero_padded() {
    assert_eq!(get_data_file_name(7), b"000000007.data".to_vec());
    assert_eq!(get_data_file_name(0), b"000000000.data".to_vec());
    assert_eq!(get_data_file_name(123456789), b"123456789.data".to_vec());
    assert_eq!(get_data_file_name(u32::MAX), b"4294967295.data"[..].to_vec());
}

#[test]
fn max_header_size_is_eleven() {
    assert_eq!(max_log_record_header_size(), 11);
}

#[test]
fn segment_offsets_and_ids() {
    let mut df = DataFile::new(42, MemIO::new());
    assert_eq!(df.get_file_id(), 42);
    assert_eq!(df.get_write_off(), 0);
    df.set_write_off(100);
    assert_eq!(df.get_write_off(), 100);
    assert_eq!(df.file_size().unwrap(), 0);
    df.set_write_off(0);
    df.write(&vec![0u8; 10]).unwrap();
    assert_eq!(df.file_size().unwrap(), 10);
    df.sync().unwrap();
}

#[test]
fn try_decode_rejects_malformed_bytes() {
    // Too short: the third varint is missing.
    assert_eq!(try_decode_log_record_pos(&vec![7u8, 8]), None);
    // An unterminated varint.
    assert_eq!(try_decode_log_record_pos(&vec![0x80u8]), None);
    // A field beyond 32 bits where the format stores a u32.
    let big = LogRecordPos { file_id: 1, offset: 2, size: 3 };
    let mut enc = Vec::new();
    enc.extend_from_slice(&[0xFFu8, 0xFF, 0xFF, 0xFF, 0x7F]); // 2^35 - 1 as file_id
    enc.extend_from_slice(&big.encode()[1..]);
    assert_eq!(try_decode_log_record_pos(&enc), None);
    // A valid encoding, trailing bytes ignored.
    let mut ok = big.encode();
    ok.extend_from_slice(b"tail");
    assert_eq!(try_decode_log_record_pos(&ok), Some(big));
}
