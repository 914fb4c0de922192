use kvs::json::{read_string, write_string};
use kvs::record::{decode, encode, frame_rm, frame_set, LogCommand};
use kvs::KvsError;

fn set(key: &str, value: &str) -> LogCommand {
    LogCommand::Put { key: key.to_owned(), value: value.to_owned() }
}

fn rm(key: &str) -> LogCommand {
    LogCommand::Rm { key: key.to_owned() }
}

#[test]
fn write_string_quotes_and_escapes() {
    assert_eq!(write_string("v").unwrap(), b"\"v\"".to_vec());
    assert_eq!(write_string("").unwrap(), b"\"\"".to_vec());
    assert_eq!(write_string("a\"b").unwrap(), b"\"a\\\"b\"".to_vec());
    assert_eq!(write_string("a\\b").unwrap(), b"\"a\\\\b\"".to_vec());
    assert_eq!(write_string("a\nb").unwrap(), b"\"a\\nb\"".to_vec());
    assert_eq!(write_string("\u{1}").unwrap(), b"\"\\u0001\"".to_vec());
    assert_eq!(write_string("caf\u{e9}").unwrap(), "\"caf\u{e9}\"".as_bytes().to_vec());
}

#[test]
fn read_string_stops_behind_the_closing_quote() {
    assert_eq!(read_string(b"\"v\"").unwrap(), ("v".to_owned(), 3));
    assert_eq!(read_string(b"\"v\"}}{\"Rm\"").unwrap(), ("v".to_owned(), 3));
    assert_eq!(read_string(b"\"a\\\"b\" tail").unwrap(), ("a\"b".to_owned(), 6));
    assert_eq!(read_string(b"\"\\u0041\\n\"x").unwrap(), ("A\n".to_owned(), 10));
    assert_eq!(read_string(b"\"\"\"\"").unwrap(), (String::new(), 2));
}

#[test]
fn read_string_rejects_what_is_no_string() {
    assert_eq!(read_string(b""), Err(KvsError::ParseError));
    assert_eq!(read_string(b"\"open"), Err(KvsError::ParseError));
    assert_eq!(read_string(b"12"), Err(KvsError::ParseError));
    assert_eq!(read_string(b"{\"k\":1}"), Err(KvsError::ParseError));
    assert_eq!(read_string(b"\"a\nb\""), Err(KvsError::ParseError));
    assert_eq!(read_string(b"\"\xff\""), Err(KvsError::ParseError));
}

#[test]
fn written_strings_are_read_back() {
    for text in ["", "v", "a\"b\\c", " \t\r\n", "\u{0}\u{1f}\u{7f}", "\u{4e2d}\u{6587}\u{1f980}"] {
        let mut bytes = write_string(text).unwrap();
        let len = bytes.len();
        assert_eq!(read_string(&bytes).unwrap(), (text.to_owned(), len));
        bytes.extend_from_slice(b"\"more\"");
        assert_eq!(read_string(&bytes).unwrap(), (text.to_owned(), len));
    }
}

#[test]
fn frames_are_the_fixed_text_around_the_strings() {
    assert_eq!(frame_set(b"\"k\"", b"\"v\""), br#"{"Set":{"key":"k","value":"v"}}"#.to_vec());
    assert_eq!(frame_set(b"", b""), br#"{"Set":{"key":,"value":}}"#.to_vec());
    assert_eq!(frame_rm(b"\"k\""), br#"{"Rm":{"key":"k"}}"#.to_vec());
    assert_eq!(frame_rm(b"x"), br#"{"Rm":{"key":x}}"#.to_vec());
}

#[test]
fn encode_writes_one_json_object() {
    assert_eq!(encode(&set("k", "v")).unwrap(), br#"{"Set":{"key":"k","value":"v"}}"#.to_vec());
    assert_eq!(encode(&rm("k")).unwrap(), br#"{"Rm":{"key":"k"}}"#.to_vec());
    assert_eq!(encode(&set("", "")).unwrap(), br#"{"Set":{"key":"","value":""}}"#.to_vec());
    assert_eq!(
        encode(&set("a\"b", "c\nd")).unwrap(),
        br#"{"Set":{"key":"a\"b","value":"c\nd"}}"#.to_vec()
    );
}

#[test]
fn encode_agrees_with_serde_json_on_the_same_object() {
    let key = "k \"1\"";
    let value = "v\u{e9}\n";
    let mut fields = serde_json::Map::new();
    fields.insert("key".to_owned(), serde_json::Value::String(key.to_owned()));
    fields.insert("value".to_owned(), serde_json::Value::String(value.to_owned()));
    let mut object = serde_json::Map::new();
    object.insert("Set".to_owned(), serde_json::Value::Object(fields));
    let expected = serde_json::to_string(&serde_json::Value::Object(object)).unwrap();
    assert_eq!(encode(&set(key, value)).unwrap(), expected.into_bytes());

    let mut fields = serde_json::Map::new();
    fields.insert("key".to_owned(), serde_json::Value::String(key.to_owned()));
    let mut object = serde_json::Map::new();
    object.insert("Rm".to_owned(), serde_json::Value::Object(fields));
    let expected = serde_json::to_string(&serde_json::Value::Object(object)).unwrap();
    assert_eq!(encode(&rm(key)).unwrap(), expected.into_bytes());
}

#[test]
fn decode_reads_one_record_and_says_where_it_ends() {
    let log = br#"{"Set":{"key":"k","value":"v"}}{"Rm":{"key":"k"}}"#;
    assert_eq!(decode(log).unwrap(), (set("k", "v"), 31));
    assert_eq!(decode(&log[31..]).unwrap(), (rm("k"), 18));
    assert_eq!(decode(&log[..31]).unwrap(), (set("k", "v"), 31));
}

#[test]
fn decode_reads_back_what_encode_writes() {
    let commands = [
        set("", ""),
        set("key", "value"),
        set("}}", "{\"Rm\":{\"key\":\"x\"}}"),
        rm(""),
        rm("\u{4e2d}\"\\"),
        set("\u{0}", "\u{1f980}"),
    ];
    let mut log = Vec::new();
    for command in commands.iter() {
        log.extend_from_slice(&encode(command).unwrap());
    }
    let mut at = 0;
    for command in commands.iter() {
        let (read, size) = decode(&log[at..]).unwrap();
        assert_eq!(&read, command);
        assert_eq!(size, encode(command).unwrap().len());
        at += size;
    }
    assert_eq!(at, log.len());
}

#[test]
fn decode_passes_over_white_space_before_a_string_only() {
    assert_eq!(decode(br#"{"Rm":{"key": "k"}}"#).unwrap(), (rm("k"), 19));
    assert_eq!(
        decode(b"{\"Set\":{\"key\":\n\"k\",\"value\":\t\"v\"}}").unwrap(),
        (set("k", "v"), 33)
    );
    assert_eq!(decode(br#"{"Rm": {"key":"k"}}"#), Err(KvsError::ParseError));
    assert_eq!(decode(br#"{"Rm":{"key":"k" }}"#), Err(KvsError::ParseError));
    assert_eq!(read_string(b"  \"v\"").unwrap(), ("v".to_owned(), 5));
}

#[test]
fn decode_rejects_what_is_no_record() {
    let bad: [&[u8]; 10] = [
        b"",
        b" ",
        b"{",
        br#"{"Set":{"key":"k","value":"v"}"#,
        br#"{"Set":{"key":"k","value":"v"} }"#,
        br#"{"Set":{"key":"k"}}"#,
        br#"{"Set":{"value":"v","key":"k"}}"#,
        br#"{"Rm":{"key":7}}"#,
        br#"{"Rm":{"key":"k","value":"v"}}"#,
        br#" {"Rm":{"key":"k"}}"#,
    ];
    for bytes in bad.iter() {
        assert_eq!(decode(bytes), Err(KvsError::ParseError));
    }
}
