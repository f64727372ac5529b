use kvs::{decode_record, encode_command, BufWriterWithPosition, Command, KVStoreError};

#[test]
fn set_record_has_the_documented_shape() {
    let data = encode_command(&Command::SET("a".to_string(), "bc".to_string()));
    assert_eq!(data, "S0000000000000000000100000000000000000002abc");
}

#[test]
fn rm_record_has_the_documented_shape() {
    let data = encode_command(&Command::RM("key".to_string()));
    assert_eq!(data, "R00000000000000000003key");
}

#[test]
fn records_roundtrip_through_a_stream() {
    let mut stream = String::new();
    stream.push_str(&encode_command(&Command::SET("k1".to_string(), "v1".to_string())));
    stream.push_str(&encode_command(&Command::RM("k1".to_string())));
    stream.push_str(&encode_command(&Command::SET("k2".to_string(), "".to_string())));

    let (first, mid) = match decode_record(&stream, 0).unwrap().unwrap() {
        (Command::SET(k, v), end) => {
            assert_eq!((k.as_str(), v.as_str()), ("k1", "v1"));
            (end, end)
        }
        _ => panic!("expected a SET"),
    };
    assert_eq!(first, 45);
    let end2 = match decode_record(&stream, mid).unwrap().unwrap() {
        (Command::RM(k), end) => {
            assert_eq!(k, "k1");
            end
        }
        _ => panic!("expected a RM"),
    };
    match decode_record(&stream, end2).unwrap().unwrap() {
        (Command::SET(k, v), end) => {
            assert_eq!((k.as_str(), v.as_str()), ("k2", ""));
            assert_eq!(end, stream.len());
        }
        _ => panic!("expected a SET"),
    }
    assert!(decode_record(&stream, stream.len()).unwrap().is_none());
}

#[test]
fn malformed_records_are_rejected() {
    assert!(matches!(decode_record("X123", 0), Err(KVStoreError::Serde(_))));
    assert!(matches!(decode_record("S12", 0), Err(KVStoreError::Serde(_))));
    // a length field that is not digits
    let bad = "Sxxxxxxxxxxxxxxxxxxxx00000000000000000000";
    assert!(matches!(decode_record(bad, 0), Err(KVStoreError::Serde(_))));
    // a length field that overruns the stream
    let bad = "S0000000000000000009900000000000000000000";
    assert!(matches!(decode_record(bad, 0), Err(KVStoreError::Serde(_))));
}

#[test]
fn writer_tracks_its_own_position() {
    let mut w = BufWriterWithPosition::new("ab".to_string());
    assert_eq!(w.get_position(), 2);
    w.write("cde");
    assert_eq!(w.get_position(), 5);
    w.write("");
    assert_eq!(w.get_position(), 5);
}
