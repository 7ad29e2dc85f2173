use walla::archive::{
    archive_bytes, collect_archived_values, frame_body, read_archive_value, read_frame,
    ArchiveError, Metadata,
};
use walla::cbor::{decode, encode};
use walla::value::Value;

const MAGIC: [u8; 8] = *b"WALL\xE2\x80\xA2A";
const VERSION: [u8; 4] = [0, 0, 0, 1];

fn from_json(v: serde_json::Value) -> Value {
    match v {
        serde_json::Value::Null => Value::Null,
        serde_json::Value::Bool(b) => Value::Bool(b),
        serde_json::Value::Number(n) => Value::Number(n.to_string()),
        serde_json::Value::String(s) => Value::String(s),
        serde_json::Value::Array(xs) => Value::Array(xs.into_iter().map(from_json).collect()),
        serde_json::Value::Object(m) => {
            Value::Object(m.into_iter().map(|(k, v)| (k, from_json(v))).collect())
        }
    }
}

fn json(text: &str) -> Value {
    from_json(serde_json::from_str(text).unwrap())
}

#[test]
fn create_metadata() {
    let md = Metadata::for_body(b"klasjdhfaklsdh asdklfjhasldk aldkfjhaskdfjh");
    assert_eq!(md.checksum, [191, 106, 231, 136]);
    assert_eq!(md.magic, MAGIC);
    assert_eq!(md.version, VERSION);

    assert_eq!(Metadata::for_body(b"hello sun goodbye moon").checksum, [204, 119, 81, 28]);
    assert_eq!(Metadata::for_body(b"hello moon goodbye sun").checksum, [4, 104, 210, 191]);
    assert_eq!(Metadata::for_body(b"hello mo0n goodbye sun").checksum, [117, 247, 173, 212]);
    assert_eq!(Metadata::for_body(b"").checksum, [0, 0, 0, 0]);
}

#[test]
fn metadata_body_matches() {
    let md = Metadata::for_body(b"klasjdhfaklsdh asdklfjhasldk aldkfjhaskdfjh");
    assert!(md.matches_body(b"klasjdhfaklsdh asdklfjhasldk aldkfjhaskdfjh"));

    assert!(!md.matches_body(b"klasjdhfaklsdh asdk1fjhasldk aldkfjhaskdfjh"));
    assert!(!md.matches_body(b""));
    assert!(!md.matches_body(b"klasjdhfaklsdh asdklfjhasldk aldkfjhaskdfjh1"));
}

#[test]
fn metadata_as_bytes() {
    let md = Metadata::for_body(b"klasjdhfaklsdh asdklfjhasldk aldkfjhaskdfjh");

    let md_bytes = md.as_bytes();
    assert_eq!(md_bytes.len(), 16);
    assert_eq!(&md_bytes[..8], b"WALL\xE2\x80\xA2A");
    assert_eq!(&md_bytes[8..12], &[0, 0, 0, 1]);
    assert_eq!(&md_bytes[12..16], &[191, 106, 231, 136]);

    let md = Metadata::for_body(b"");

    let md_bytes = md.as_bytes();
    assert_eq!(md_bytes.len(), 16);
    assert_eq!(&md_bytes[..8], b"WALL\xE2\x80\xA2A");
    assert_eq!(&md_bytes[8..12], &[0, 0, 0, 1]);
    assert_eq!(&md_bytes[12..16], &[0, 0, 0, 0]);
}

#[test]
fn metadata_from_bytes() {
    let md = Metadata::from_reader(b"WALL\xE2\x80\xA2A\x00\x00\x00\x01\x00\x00\x00\x00").unwrap();
    assert_eq!(md.magic, MAGIC);
    assert_eq!(md.version, VERSION);
    assert_eq!(md.checksum, [0, 0, 0, 0]);
    assert!(md.matches_body(b""));

    let md = Metadata::from_reader(b"WALL\xE2\x80\xA2A\x00\x00\x00\x01\xBF\x6A\xE7\x88").unwrap();
    assert_eq!(md.magic, MAGIC);
    assert_eq!(md.version, VERSION);
    assert_eq!(md.checksum, [191, 106, 231, 136]);
    assert!(md.matches_body(b"klasjdhfaklsdh asdklfjhasldk aldkfjhaskdfjh"));
}

#[test]
fn metadata_from_short_input_is_truncated() {
    assert_eq!(Metadata::from_reader(b"WALL"), Err(ArchiveError::Truncated));
}

#[test]
fn default_metadata_has_zero_checksum() {
    let md = Metadata::default();
    assert_eq!(md.magic, MAGIC);
    assert_eq!(md.version, VERSION);
    assert_eq!(md.checksum, [0, 0, 0, 0]);
    assert_eq!(md.stored_checksum(), 0);
}

#[test]
fn encodes_tagged_arrays() {
    assert_eq!(encode(&Value::Null), vec![0x81, 0x00]);
    assert_eq!(encode(&Value::Bool(true)), vec![0x82, 0x01, 0xf5]);
    assert_eq!(encode(&Value::Number("12".to_string())), vec![0x82, 0x02, 0x62, b'1', b'2']);
    assert_eq!(encode(&Value::String("a".to_string())), vec![0x82, 0x03, 0x61, b'a']);
    assert_eq!(
        encode(&Value::Array(vec![Value::Null])),
        vec![0x82, 0x04, 0x81, 0x81, 0x00]
    );
    assert_eq!(
        encode(&Value::Object(vec![("k".to_string(), Value::Bool(false))])),
        vec![0x82, 0x05, 0x81, 0x82, 0x61, b'k', 0x82, 0x01, 0xf4]
    );
}

#[test]
fn long_text_uses_longer_heads() {
    let text = "x".repeat(300);
    let bytes = encode(&Value::String(text.clone()));
    assert_eq!(&bytes[..5], &[0x82, 0x03, 0x79, 0x01, 0x2c]);
    assert_eq!(decode(&bytes), Some(Value::String(text)));
}

#[test]
fn codec_round_trips() {
    let v = json(r#"{"b":[1,2.5,"three",null,true,{"z":{},"a":[]}],"a":"é ☃","n":10000000000000001}"#);
    let bytes = encode(&v);
    assert_eq!(decode(&bytes), Some(v));
}

#[test]
fn decode_refuses_trailing_and_bad_bytes() {
    let mut bytes = encode(&Value::Null);
    bytes.push(0);
    assert_eq!(decode(&bytes), None);
    assert_eq!(decode(&[0x82, 0x09, 0x00]), None);
    assert_eq!(decode(&[0x82, 0x03, 0x61, 0xff]), None);
    assert_eq!(decode(&[]), None);
}

#[test]
fn archive_round_trips() {
    let v = json(r#"{"a":3,"b":2,"c":4}"#);
    let file = archive_bytes(&v);
    assert_eq!(&file[..8], &MAGIC);
    assert_eq!(&file[8..12], &VERSION);
    assert!(Metadata::from_reader(&file).unwrap().matches_body(&file[16..]));
    assert_eq!(read_archive_value(&file), Ok(json(r#"{"a":3,"b":2,"c":4}"#)));
}

#[test]
fn archive_with_flipped_body_byte_fails_checksum() {
    let v = json(r#"{"a":3,"b":2,"c":4}"#);
    let mut file = archive_bytes(&v);
    let last = file.len() - 1;
    file[last] ^= 0x01;
    assert!(matches!(read_archive_value(&file), Err(ArchiveError::ChecksumMismatch { .. })));
}

#[test]
fn archive_header_errors() {
    let file = archive_bytes(&Value::Null);
    assert_eq!(read_archive_value(&file[..10]), Err(ArchiveError::Truncated));

    let mut bad_magic = file.clone();
    bad_magic[0] = b'X';
    assert_eq!(read_archive_value(&bad_magic), Err(ArchiveError::BadMagic));

    let mut bad_version = file.clone();
    bad_version[11] = 2;
    assert_eq!(read_archive_value(&bad_version), Err(ArchiveError::UnsupportedVersion));

    let body = vec![0x82, 0x01];
    let framed = frame_body(body.clone(), 7);
    assert_eq!(
        read_frame(&framed, 7),
        Err(ArchiveError::Malformed)
    );
    assert_eq!(
        read_frame(&framed, 8),
        Err(ArchiveError::ChecksumMismatch { stored: 7, computed: 8 })
    );
}

#[test]
fn collected_archives_merge_oldest_first() {
    let files = vec![
        archive_bytes(&json(r#"{"a":1,"xs":[1]}"#)),
        archive_bytes(&json(r#"{"b":2,"xs":[2]}"#)),
        archive_bytes(&json(r#"{"a":3}"#)),
    ];
    assert_eq!(
        collect_archived_values(&files),
        Ok(Some(json(r#"{"a":3,"xs":[1,2],"b":2}"#)))
    );
    assert_eq!(collect_archived_values(&Vec::new()), Ok(None));

    let mut broken = files.clone();
    broken[1][20] ^= 0xff;
    assert!(matches!(
        collect_archived_values(&broken),
        Err(ArchiveError::ChecksumMismatch { .. })
    ));
}
