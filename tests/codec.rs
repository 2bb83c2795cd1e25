use kvs::de::{DecodeError, Deserializer};
use kvs::record::{encode_record, read_record, Record};

fn record(db_key: u64, key: &str, value: Option<&str>) -> Record {
    Record { db_key, key: key.to_string(), value: value.map(|v| v.to_string()) }
}

#[test]
fn record_encoding() {
    let bytes = encode_record(&record(42, "key1", Some("value1")));
    assert_eq!(
        "}3\nRecord\n$db_key\nD42\n$key\n$key1\n$value\n$value1\n".as_bytes(),
        bytes.as_slice()
    );
    let bytes = encode_record(&record(0, "a\nb", None));
    assert_eq!("}3\nRecord\n$db_key\nD0\n$key\n&3\na\nb\n$value\n!\n".as_bytes(), bytes.as_slice());
}

#[test]
fn records_read_back_one_after_another() {
    let records = [
        record(0, "key1", Some("value1")),
        record(7, "∑ key\n", None),
        record(u64::MAX, "", Some("line\nfeed")),
    ];
    let mut bytes = Vec::new();
    for r in &records {
        bytes.extend_from_slice(&encode_record(r));
    }
    let mut de = Deserializer::new(bytes);
    for r in &records {
        assert_eq!(Some(r.clone()), read_record(&mut de).unwrap());
    }
    assert_eq!(None, read_record(&mut de).unwrap());
}

#[test]
fn read_record_refuses_other_bytes() {
    let mut de = Deserializer::new("}3\nRecord\n$db_key\nD+5\n$key\n$k\n$value\n!\n".as_bytes().to_vec());
    assert_eq!(Err(DecodeError::DataError), read_record(&mut de));
    let mut de = Deserializer::new("}3\nRecord\n$db_key\nDx\n".as_bytes().to_vec());
    assert_eq!(Err(DecodeError::ParseIntError), read_record(&mut de));
    let mut de = Deserializer::new("}2\nRecord\n".as_bytes().to_vec());
    assert_eq!(Err(DecodeError::DataError), read_record(&mut de));
}
