use gpwgen::error::GpwError;
use gpwgen::record::{
    decode, decode_stream, encode, encode_stream, push_record, Decoded, Record, RECORD_LEN,
};

#[test]
fn record_is_twelve_little_endian_bytes() {
    let rec = Record { address: 0x0102030405060708, value: 0x0a0b0c0d };
    assert_eq!(
        encode(rec),
        [0x08, 0x07, 0x06, 0x05, 0x04, 0x03, 0x02, 0x01, 0x0d, 0x0c, 0x0b, 0x0a]
    );
    assert_eq!(RECORD_LEN, 12);
}

#[test]
fn record_value_is_the_single_precision_pattern() {
    let rec = Record { address: 0x85283473fffffff, value: 1.5f32.to_bits() };
    let bytes = encode(rec);
    assert_eq!(&bytes[..8], &0x85283473fffffffu64.to_le_bytes());
    assert_eq!(&bytes[8..], &1.5f32.to_le_bytes());
}

#[test]
fn decode_reads_back_what_encode_wrote() {
    for rec in [
        Record { address: 0, value: 0 },
        Record { address: u64::MAX, value: u32::MAX },
        Record { address: 0x85283473fffffff, value: 28.0f32.to_bits() },
        Record { address: 0x8000000000000001, value: 0x80000001 },
    ] {
        let bytes = encode(rec);
        assert_eq!(decode(&bytes, 0), Decoded::Record(rec));
    }
}

#[test]
fn decode_known_bytes() {
    let bytes = [
        0xff, 0xff, 0xff, 0xff, 0x73, 0x34, 0x28, 0x08, 0x00, 0x00, 0xe0, 0x41, 0x01, 0x00, 0x00,
        0x00, 0x00, 0x00, 0x00, 0x00, 0x00, 0x00, 0x80, 0x3f,
    ];
    assert_eq!(
        decode(&bytes, 0),
        Decoded::Record(Record { address: 0x08283473ffffffff, value: 28.0f32.to_bits() })
    );
    assert_eq!(
        decode(&bytes, 12),
        Decoded::Record(Record { address: 1, value: 1.0f32.to_bits() })
    );
    assert_eq!(decode(&bytes, 24), Decoded::EndOfStream);
    assert_eq!(decode(&bytes, 13), Decoded::CorruptStream);
    assert_eq!(decode(&bytes, 23), Decoded::CorruptStream);
    assert_eq!(decode(&bytes, 100), Decoded::EndOfStream);
}

#[test]
fn end_of_stream_only_on_a_record_boundary() {
    assert_eq!(decode(b"", 0), Decoded::EndOfStream);
    for len in 1..12usize {
        let bytes = vec![0u8; len];
        assert_eq!(decode(&bytes, 0), Decoded::CorruptStream);
    }
    assert_eq!(
        decode(&[0u8; 12], 0),
        Decoded::Record(Record { address: 0, value: 0 })
    );
}

#[test]
fn stream_round_trip() {
    let records = vec![
        Record { address: 3, value: 1 },
        Record { address: 1, value: 2 },
        Record { address: 2, value: 3 },
    ];
    let bytes = encode_stream(&records);
    assert_eq!(bytes.len(), 36);
    assert_eq!(decode_stream(&bytes), Ok(records));
    assert_eq!(encode_stream(&Vec::new()), Vec::<u8>::new());
    assert_eq!(decode_stream(b""), Ok(Vec::new()));
}

#[test]
fn stream_with_a_stray_byte_is_malformed() {
    let mut bytes = encode_stream(&vec![Record { address: 3, value: 1 }]);
    bytes.push(0);
    assert_eq!(bytes.len(), 13);
    assert_eq!(decode_stream(&bytes), Err(GpwError::MalformedRecordStream));
    bytes.truncate(11);
    assert_eq!(decode_stream(&bytes), Err(GpwError::MalformedRecordStream));
    bytes.truncate(8);
    assert_eq!(decode_stream(&bytes), Err(GpwError::MalformedRecordStream));
}

#[test]
fn push_record_appends() {
    let mut dst = vec![9u8];
    push_record(&mut dst, Record { address: 0x0102030405060708, value: 0x0a0b0c0d });
    assert_eq!(
        dst,
        vec![9, 0x08, 0x07, 0x06, 0x05, 0x04, 0x03, 0x02, 0x01, 0x0d, 0x0c, 0x0b, 0x0a]
    );
}
