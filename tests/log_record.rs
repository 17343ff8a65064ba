use bitcask_kv::errors::Errors;
use bitcask_kv::log_record::{
    decode_log_record_body, decode_log_record_header, decode_log_record_pos, max_log_record_header_size,
    LogRecord, LogRecordPos, LogRecordType,
};

/// Reads a record back from `buf` at `offset` as a data file reader does:
/// the framing from at most eleven bytes (zero past the end), then the body.
fn read_at(buf: &[u8], offset: usize) -> Result<(LogRecord, usize), Errors> {
    let mut header = vec![0u8; max_log_record_header_size()];
    for i in 0..header.len() {
        if offset + i < buf.len() {
            header[i] = buf[offset + i];
        }
    }
    let h = decode_log_record_header(&header)?;
    let start = offset + h.header_size;
    let end = start + h.key_size + h.value_size + 4;
    if end > buf.len() {
        return Err(Errors::ReadDataFileEof);
    }
    let r = decode_log_record_body(&header, &h, &buf[start..end])?;
    Ok((r.record, r.size))
}

#[test]
fn test_log_record_encode() {
    let rec1 = LogRecord {
        key: "name".as_bytes().to_vec(),
        value: "bitcask-rs".as_bytes().to_vec(),
        rec_type: LogRecordType::NORMAL,
    };
    let enc1 = rec1.encode();
    assert!(enc1.len() > 5);
    assert_eq!(1020360578, rec1.get_crc());

    let rec2 = LogRecord {
        key: "name".as_bytes().to_vec(),
        value: Default::default(),
        rec_type: LogRecordType::NORMAL,
    };
    let enc2 = rec2.encode();
    assert!(enc2.len() > 5);
    assert_eq!(3756865478, rec2.get_crc());

    let rec3 = LogRecord {
        key: "name".as_bytes().to_vec(),
        value: "bitcask-rs".as_bytes().to_vec(),
        rec_type: LogRecordType::DELETE,
    };
    let enc3 = rec3.encode();
    assert!(enc3.len() > 5);
    assert_eq!(1867197446, rec3.get_crc());
}

#[test]
fn encode_layout_is_type_lengths_key_value_crc_le() {
    let rec = LogRecord { key: b"name".to_vec(), value: b"bitcask-rs".to_vec(), rec_type: LogRecordType::NORMAL };
    let enc = rec.encode();
    assert_eq!(enc.len(), 1 + 1 + 1 + 4 + 10 + 4);
    assert_eq!(rec.encoded_length(), enc.len());
    assert_eq!(&enc[..3], &[1u8, 4, 10]);
    assert_eq!(&enc[3..7], b"name");
    assert_eq!(&enc[7..17], b"bitcask-rs");
    assert_eq!(&enc[17..], &1020360578u32.to_le_bytes());
    assert_eq!(max_log_record_header_size(), 11);
}

#[test]
fn records_read_back_at_their_offsets() {
    let recs = vec![
        LogRecord { key: b"name".to_vec(), value: b"bitcask-rs-kv".to_vec(), rec_type: LogRecordType::NORMAL },
        LogRecord { key: b"name".to_vec(), value: b"new-value".to_vec(), rec_type: LogRecordType::NORMAL },
        LogRecord { key: b"name".to_vec(), value: Vec::new(), rec_type: LogRecordType::DELETE },
    ];
    let mut file = Vec::new();
    for r in &recs {
        file.extend_from_slice(&r.encode());
    }
    let (r1, s1) = read_at(&file, 0).unwrap();
    assert_eq!(s1, 24);
    assert_eq!(r1.key, recs[0].key);
    assert_eq!(r1.value, recs[0].value);
    let (r2, s2) = read_at(&file, 24).unwrap();
    assert_eq!(s2, 20);
    assert_eq!(r2.value, recs[1].value);
    let (r3, _) = read_at(&file, 44).unwrap();
    assert_eq!(r3.rec_type, LogRecordType::DELETE);
    assert_eq!(r3.value, Vec::<u8>::new());
    assert_eq!(read_at(&file, file.len()).err(), Some(Errors::ReadDataFileEof));
}

#[test]
fn long_key_takes_two_length_bytes() {
    let rec = LogRecord { key: vec![7u8; 300], value: b"v".to_vec(), rec_type: LogRecordType::NORMAL };
    let enc = rec.encode();
    assert_eq!(&enc[1..3], &[0xac, 0x02]);
    assert_eq!(rec.encoded_length(), enc.len());
    let (back, size) = read_at(&enc, 0).unwrap();
    assert_eq!(size, enc.len());
    assert_eq!(back.key, rec.key);
}

#[test]
fn any_single_bit_flip_in_the_body_fails_the_checksum() {
    let rec = LogRecord { key: b"key-a".to_vec(), value: b"value-a".to_vec(), rec_type: LogRecordType::NORMAL };
    let enc = rec.encode();
    for byte in 3..enc.len() - 4 {
        for bit in 0..8 {
            let mut bad = enc.clone();
            bad[byte] ^= 1 << bit;
            assert_eq!(read_at(&bad, 0).err(), Some(Errors::InvalidLogRecordCrc));
        }
    }
}

#[test]
fn bad_kind_byte_with_matching_checksum_is_corruption() {
    let rec = LogRecord { key: b"k".to_vec(), value: b"v".to_vec(), rec_type: LogRecordType::NORMAL };
    let mut enc = rec.encode();
    enc[0] = 9;
    let crc = crc32fast::hash(&enc[..enc.len() - 4]);
    let n = enc.len();
    enc[n - 4..].copy_from_slice(&crc.to_le_bytes());
    assert_eq!(read_at(&enc, 0).err(), Some(Errors::DataDirCorrupted));
}

#[test]
fn header_of_zeros_is_end_of_data_and_truncated_varint_is_corruption() {
    assert_eq!(decode_log_record_header(&[0u8; 11]).err(), Some(Errors::ReadDataFileEof));
    assert_eq!(decode_log_record_header(&[1u8, 0x80, 0x80]).err(), Some(Errors::DataDirCorrupted));
    assert_eq!(decode_log_record_header(&[]).err(), Some(Errors::DataDirCorrupted));
}

#[test]
fn position_round_trips_through_varints() {
    let p = LogRecordPos { file_id: 300, offset: 1 << 40, size: 77 };
    let enc = p.encode();
    assert_eq!(&enc[..2], &[0xac, 0x02]);
    assert_eq!(decode_log_record_pos(&enc), Ok(p));
    let mut longer = enc.clone();
    longer.push(0);
    assert_eq!(decode_log_record_pos(&longer), Err(Errors::DataDirCorrupted));
    assert_eq!(decode_log_record_pos(&[0x80]), Err(Errors::DataDirCorrupted));
}

#[test]
fn kind_bytes() {
    assert_eq!(LogRecordType::from_u8(1), Some(LogRecordType::NORMAL));
    assert_eq!(LogRecordType::from_u8(2), Some(LogRecordType::DELETE));
    assert_eq!(LogRecordType::from_u8(3), Some(LogRecordType::TxnFinished));
    assert_eq!(LogRecordType::from_u8(0), None);
    assert_eq!(LogRecordType::TxnFinished.to_u8(), 3);
}
