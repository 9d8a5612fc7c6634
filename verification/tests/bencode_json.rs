use codecrafters_bittorrent::bencode::{self, BencodeValue};
use codecrafters_bittorrent::json::JsonValue;
use codecrafters_bittorrent::types::TorrentError;
use codecrafters_bittorrent::{convert, decode_bencode, try_decode_bencode};

fn render(j: &JsonValue) -> String {
    match j {
        JsonValue::Null => "null".to_string(),
        JsonValue::Number(n) => n.to_string(),
        JsonValue::String(s) => format!("{:?}", s),
        JsonValue::Array(items) => format!("[{}]", items.iter().map(render).collect::<Vec<_>>().join(",")),
        JsonValue::Object(entries) => {
            let mut e: Vec<_> = entries.iter().collect();
            e.sort_by(|a, b| a.0.cmp(&b.0));
            format!("{{{}}}", e.iter().map(|(k, v)| format!("{:?}:{}", k, render(v))).collect::<Vec<_>>().join(","))
        }
    }
}

#[test]
fn decode_reads_nested_values() {
    let v = bencode::decode(b"d3:foo3:bar5:helloi52ee").unwrap();
    match v {
        BencodeValue::Dict(entries) => assert_eq!(entries.len(), 2),
        _ => panic!("not a dictionary"),
    }
}

#[test]
fn decode_ignores_bytes_after_the_value() {
    let v = bencode::decode(b"i42eXYZ").unwrap();
    assert!(matches!(v, BencodeValue::Int(42)));
}

#[test]
fn decode_refuses_non_bencode() {
    assert_eq!(bencode::decode(b"z").unwrap_err(), TorrentError::Bencode);
}

#[test]
fn encode_writes_sorted_keys() {
    let v = BencodeValue::Dict(vec![
        (b"b".to_vec(), BencodeValue::Int(1)),
        (b"a".to_vec(), BencodeValue::List(vec![BencodeValue::Bytes(b"x".to_vec())])),
    ]);
    assert_eq!(bencode::encode(&v), b"d1:al1:xe1:bi1ee".to_vec());
}

#[test]
fn convert_gives_json() {
    let v = bencode::decode(b"d3:foo3:bar5:helloi52e4:listli1e2:abee").unwrap();
    let j = convert(v).unwrap();
    assert_eq!(render(&j), r#"{"foo":"bar","hello":52,"list":[1,"ab"]}"#);
}

#[test]
fn convert_refuses_non_utf8_text() {
    let v = BencodeValue::List(vec![BencodeValue::Bytes(vec![0xff])]);
    assert_eq!(convert(v).unwrap_err(), TorrentError::InvalidUtf8);
}

#[test]
fn decode_bencode_reads_json() {
    let j = decode_bencode(b"l5:helloi-3ee").unwrap();
    assert_eq!(render(&j), r#"["hello",-3]"#);
}

#[test]
fn try_decode_bencode_says_when_bytes_are_not_bencode() {
    assert!(try_decode_bencode(b"q").is_none());
    assert_eq!(render(&try_decode_bencode(b"4:spam").unwrap().unwrap()), r#""spam""#);
    assert_eq!(try_decode_bencode(&[b'1', b':', 0xfe]).unwrap().unwrap_err(), TorrentError::InvalidUtf8);
}
