use json_block::bag;
use json_block::cells::CellStore;
use json_block::convert::{param_to_bag, param_to_json};
use json_block::dict;
use json_block::errors::CodecError;
use json_block::json::{parse_obj, to_json_bytes, JsonValue};
use json_block::params::{decode_param, encode_param, param_name};
use json_block::text;

fn full_config_text() -> Vec<u8> {
    b"{\"p0\":7,\"p1\":42,\"p2\":true,\"p3\":4294967295}".to_vec()
}

/// A one-entry dictionary bag: id 1 bound to the integer 42.
fn one_entry_bag() -> Vec<u8> {
    let mut s = CellStore::new();
    let root = dict::empty_dict(&mut s);
    let w = encode_param(&mut s, 1, &JsonValue::Int(42)).unwrap();
    let r1 = dict::with_entry(&mut s, root, 1, w).unwrap();
    let bytes = bag::encode(&s, r1);
    text::to_text(&bytes)
}

#[test]
fn json_parse_canonical() {
    let ms = parse_obj(&b"{\"a\":1,\"b\":true,\"c\":-12}".to_vec()).unwrap();
    assert_eq!(ms.len(), 3);
    assert_eq!(ms[0], (b"a".to_vec(), JsonValue::Int(1)));
    assert_eq!(ms[1], (b"b".to_vec(), JsonValue::Bool(true)));
    assert_eq!(ms[2], (b"c".to_vec(), JsonValue::Int(-12)));
}

#[test]
fn json_parse_whitespace() {
    let ms = parse_obj(&b" {\t\"a\" : 1 ,\n\"b\" : false } ".to_vec()).unwrap();
    assert_eq!(ms.len(), 2);
    assert_eq!(ms[0], (b"a".to_vec(), JsonValue::Int(1)));
    assert_eq!(ms[1], (b"b".to_vec(), JsonValue::Bool(false)));
}

#[test]
fn json_parse_empty_object() {
    assert_eq!(parse_obj(&b" { } ".to_vec()).unwrap(), vec![]);
}

#[test]
fn json_parse_rejects() {
    for bad in [
        &b"[1,2]"[..],
        b"",
        b"{",
        b"{\"a\":1",
        b"{\"a\":01}",
        b"{\"a\":-0}",
        b"{\"a\":1}x",
        b"{\"a\\n\":1}",
        b"{\"\":1}",
        b"{\"a\":1,}",
        b"{\"a\":9999999999999999999}",
        b"{\"a\":\"unterminated}",
        b"{\"a\":\"esc\\\\ape\"}",
        b"{\"a\":[1]}",
        b"{\"a\":{}}",
        b"{\"a\":nul}",
    ] {
        assert_eq!(parse_obj(&bad.to_vec()), Err(CodecError::InvalidJson), "case: {:?}", bad);
    }
}

#[test]
fn json_parse_string_and_null_values() {
    // well-formed JSON whose member values no schema accepts still parses;
    // the configuration check is what rejects it
    let ms = parse_obj(&b"{\"a\":\"some text\",\"b\":null,\"c\":\"\"}".to_vec()).unwrap();
    assert_eq!(ms.len(), 3);
    assert_eq!(ms[0], (b"a".to_vec(), JsonValue::Str));
    assert_eq!(ms[1], (b"b".to_vec(), JsonValue::Null));
    assert_eq!(ms[2], (b"c".to_vec(), JsonValue::Str));
}

#[test]
fn config_with_string_value_is_invalid_value() {
    // a wrong-typed member is a value error, not a syntax error
    let t = b"{\"p0\":7,\"p1\":\"x\",\"p2\":true,\"p3\":1}".to_vec();
    assert_eq!(param_to_bag(&t, 1), Err(CodecError::InvalidValue));
    let t2 = b"{\"p0\":7,\"p1\":42,\"p2\":null,\"p3\":1}".to_vec();
    assert_eq!(param_to_bag(&t2, 1), Err(CodecError::InvalidValue));
}

#[test]
fn json_serialize_exact() {
    let ms = vec![
        (b"p1".to_vec(), JsonValue::Int(42)),
        (b"p2".to_vec(), JsonValue::Bool(false)),
        (b"n".to_vec(), JsonValue::Int(-7)),
    ];
    assert_eq!(to_json_bytes(&ms), b"{\"p1\":42,\"p2\":false,\"n\":-7}".to_vec());
}

#[test]
fn json_serialize_parse_round_trip() {
    let ms = vec![
        (b"x".to_vec(), JsonValue::Int(0)),
        (b"y".to_vec(), JsonValue::Int(i64::MAX)),
        (b"z".to_vec(), JsonValue::Bool(true)),
    ];
    let t = to_json_bytes(&ms);
    assert_eq!(parse_obj(&t).unwrap(), ms);
}

#[test]
fn param_codec_round_trip_int() {
    // every integer id: decode(encode(v)) == v
    for id in [0, 1, 3] {
        for v in [0i64, 1, 42, 0xffffffff] {
            let mut s = CellStore::new();
            let w = encode_param(&mut s, id, &JsonValue::Int(v)).unwrap();
            assert_eq!(decode_param(&s, id, w), Ok(JsonValue::Int(v)));
        }
    }
}

#[test]
fn param_codec_round_trip_bool() {
    for v in [true, false] {
        let mut s = CellStore::new();
        let w = encode_param(&mut s, 2, &JsonValue::Bool(v)).unwrap();
        assert_eq!(decode_param(&s, 2, w), Ok(JsonValue::Bool(v)));
    }
}

#[test]
fn param_codec_rejects() {
    let mut s = CellStore::new();
    assert_eq!(
        encode_param(&mut s, 9, &JsonValue::Int(1)),
        Err(CodecError::UnsupportedParameter)
    );
    assert_eq!(
        encode_param(&mut s, 0, &JsonValue::Bool(true)),
        Err(CodecError::InvalidValue)
    );
    assert_eq!(
        encode_param(&mut s, 2, &JsonValue::Int(1)),
        Err(CodecError::InvalidValue)
    );
    assert_eq!(
        encode_param(&mut s, 1, &JsonValue::Int(-1)),
        Err(CodecError::InvalidValue)
    );
    assert_eq!(
        encode_param(&mut s, 1, &JsonValue::Int(0x1_0000_0000)),
        Err(CodecError::InvalidValue)
    );
    // a cell of the wrong shape for the schema
    let bad = s.make_cell(vec![0xAB], 8, vec![]).unwrap();
    let w = s.make_cell(vec![], 0, vec![bad]).unwrap();
    assert_eq!(decode_param(&s, 1, w), Err(CodecError::SchemaMismatch));
    assert_eq!(decode_param(&s, 9, w), Err(CodecError::UnsupportedParameter));
}

#[test]
fn param_names() {
    assert_eq!(param_name(0), Some(b"p0".to_vec()));
    assert_eq!(param_name(3), Some(b"p3".to_vec()));
    assert_eq!(param_name(4), None);
    assert_eq!(param_name(-1), None);
}

#[test]
fn one_entry_scenario() {
    let bag_text = one_entry_bag();
    let out = param_to_json(&bag_text, 1).unwrap();
    assert_eq!(out, b"{\"p1\":42}".to_vec());
}

#[test]
fn unknown_id_is_parameter_not_found() {
    let bag_text = one_entry_bag();
    // a valid bag whose dictionary has no entry for this id
    assert_eq!(param_to_json(&bag_text, 2), Err(CodecError::ParameterNotFound));
}

#[test]
fn entry_without_codec_is_unsupported() {
    let mut s = CellStore::new();
    let root = dict::empty_dict(&mut s);
    let w = encode_param(&mut s, 1, &JsonValue::Int(5)).unwrap();
    let r1 = dict::with_entry(&mut s, root, 9, w).unwrap();
    let bag_text = text::to_text(&bag::encode(&s, r1));
    assert_eq!(param_to_json(&bag_text, 9), Err(CodecError::UnsupportedParameter));
}

#[test]
fn bad_base64_is_invalid_encoding() {
    assert_eq!(param_to_json(&b"!!!".to_vec(), 1), Err(CodecError::InvalidEncoding));
}

#[test]
fn short_bag_is_truncated() {
    // four bytes of valid base64, decoding to three bytes: under the header size
    let t = text::to_text(&vec![1, 2, 3]);
    assert_eq!(param_to_json(&t, 1), Err(CodecError::TruncatedBag));
}

#[test]
fn full_config_round_trip() {
    let out = param_to_bag(&full_config_text(), 1).unwrap();
    // deterministic
    assert_eq!(param_to_bag(&full_config_text(), 1).unwrap(), out);
    // the returned bag is rooted at the payload cell of p1: the integer 42
    let mut s = CellStore::new();
    let w = encode_param(&mut s, 1, &JsonValue::Int(42)).unwrap();
    let p = s.cells[w].children[0];
    let direct = text::to_text(&bag::encode(&s, p));
    assert_eq!(out, direct);
}

#[test]
fn partial_config_is_invalid_value() {
    // only the target parameter present: the full-configuration schema is required
    assert_eq!(
        param_to_bag(&b"{\"p1\":42}".to_vec(), 1),
        Err(CodecError::InvalidValue)
    );
}

#[test]
fn config_with_unknown_member_is_invalid_value() {
    let t = b"{\"p0\":7,\"p1\":42,\"p2\":true,\"p3\":1,\"extra\":1}".to_vec();
    assert_eq!(param_to_bag(&t, 1), Err(CodecError::InvalidValue));
}

#[test]
fn config_with_bad_value_is_invalid_value() {
    let t = b"{\"p0\":7,\"p1\":42,\"p2\":5,\"p3\":1}".to_vec();
    assert_eq!(param_to_bag(&t, 1), Err(CodecError::InvalidValue));
}

#[test]
fn config_not_object_is_invalid_json() {
    assert_eq!(param_to_bag(&b"42".to_vec(), 1), Err(CodecError::InvalidJson));
}

#[test]
fn unknown_id_in_full_config() {
    assert_eq!(
        param_to_bag(&full_config_text(), 17),
        Err(CodecError::ParameterNotFound)
    );
}

#[test]
fn config_bag_and_back() {
    // encode the full configuration, then read each parameter back from the
    // snapshot bag
    let ms = parse_obj(&full_config_text()).unwrap();
    let mut s = CellStore::new();
    let mut root = dict::empty_dict(&mut s);
    for (name, v) in &ms {
        let id = String::from_utf8(name.clone()).unwrap()[1..].parse::<i32>().unwrap();
        let w = encode_param(&mut s, id, v).unwrap();
        root = dict::with_entry(&mut s, root, id, w).unwrap();
    }
    let snapshot = text::to_text(&bag::encode(&s, root));
    assert_eq!(param_to_json(&snapshot, 0).unwrap(), b"{\"p0\":7}".to_vec());
    assert_eq!(param_to_json(&snapshot, 1).unwrap(), b"{\"p1\":42}".to_vec());
    assert_eq!(param_to_json(&snapshot, 2).unwrap(), b"{\"p2\":true}".to_vec());
    assert_eq!(
        param_to_json(&snapshot, 3).unwrap(),
        b"{\"p3\":4294967295}".to_vec()
    );
}
