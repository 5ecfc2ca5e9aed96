use nbt_json::decode::nbt_to_json;
use nbt_json::digits::i64_to_dec;
use nbt_json::encode::to_nbt;
use nbt_json::get_file_type;
use nbt_json::jsonval::{JsonNumber, JsonValue};
use nbt_json::project::to_json;
use nbt_json::resolve::{resolve_compound, resolve_tag_types};
use nbt_json::tag::{LongNumber, TagType};
use nbt_json::{FileType, NbtError, TagResolvingError};

fn num(v: i64) -> JsonValue {
    JsonValue::Num(JsonNumber::from_int(v))
}

#[test]
fn byte_example_decodes_to_suffixed_key() {
    // Compound root; Byte tag named "a" with value 5; End.
    let bytes = [0x0au8, 0x00, 0x00, 0x01, 0x00, 0x01, 0x61, 0x05, 0x00];
    let json = to_json(&bytes).unwrap();
    match json {
        JsonValue::Object(members) => {
            assert_eq!(members.len(), 1);
            assert_eq!(members[0].0, "a;B");
            match &members[0].1 {
                JsonValue::Num(n) => assert_eq!(n.int_val, Some(5)),
                _ => panic!("expected a number"),
            }
        }
        _ => panic!("expected an object"),
    }
}

#[test]
fn byte_example_resolves_back_to_identical_bytes() {
    let bytes = vec![0x0au8, 0x00, 0x00, 0x01, 0x00, 0x01, 0x61, 0x05, 0x00];
    let json = to_json(&bytes).unwrap();
    let tree = resolve_tag_types(&json).unwrap();
    let out = to_nbt(&tree, FileType::Raw).unwrap();
    assert_eq!(out, bytes);
}

#[test]
fn empty_compound_round_trips() {
    let bytes = vec![0x0au8, 0x00, 0x00, 0x00];
    let json = to_json(&bytes).unwrap();
    match &json {
        JsonValue::Object(members) => assert_eq!(members.len(), 0),
        _ => panic!("expected an object"),
    }
    let tree = resolve_tag_types(&json).unwrap();
    let out = to_nbt(&tree, FileType::Raw).unwrap();
    assert_eq!(out, bytes);
}

#[test]
fn envelope_detection_matches_requested_envelope() {
    let tree = vec![("a".to_string(), TagType::Int(7))];
    let raw = to_nbt(&tree, FileType::Raw).unwrap();
    let gz = to_nbt(&tree, FileType::GZip).unwrap();
    assert!(matches!(get_file_type(&raw), Ok(FileType::Raw)));
    assert!(matches!(get_file_type(&gz), Ok(FileType::GZip)));
}

#[test]
fn gzip_round_trips_and_differs_from_raw() {
    let tree = vec![
        ("name".to_string(), TagType::Str("hello".to_string())),
        ("n".to_string(), TagType::Long(1234567890123)),
    ];
    let raw = to_nbt(&tree, FileType::Raw).unwrap();
    let gz = to_nbt(&tree, FileType::GZip).unwrap();
    assert_ne!(raw, gz);
    let back = nbt_to_json(&gz).unwrap();
    assert_eq!(back, TagType::Compound(tree));
}

#[test]
fn binary_round_trip_all_tag_types() {
    let tree = vec![
        ("b".to_string(), TagType::Byte(-5)),
        ("s".to_string(), TagType::Short(-300)),
        ("i".to_string(), TagType::Int(123456)),
        ("l".to_string(), TagType::Long(-9007199254740993)),
        ("f".to_string(), TagType::Float(0x3f800000)),
        ("d".to_string(), TagType::Double(0x3ff0000000000000)),
        ("ba".to_string(), TagType::ByteArray(vec![1, -2, 3])),
        ("st".to_string(), TagType::Str("text".to_string())),
        (
            "li".to_string(),
            TagType::List(vec![TagType::Int(1), TagType::Int(2)]),
        ),
        (
            "co".to_string(),
            TagType::Compound(vec![("x".to_string(), TagType::Byte(1))]),
        ),
        ("ia".to_string(), TagType::IntArray(vec![10, -20])),
        ("la".to_string(), TagType::LongArray(vec![30, -40])),
    ];
    let raw = to_nbt(&tree, FileType::Raw).unwrap();
    let back = nbt_to_json(&raw).unwrap();
    assert_eq!(back, TagType::Compound(tree));
}

#[test]
fn json_round_trip_preserves_tree() {
    let tree = vec![
        ("b".to_string(), TagType::Byte(100)),
        ("s".to_string(), TagType::Short(-3)),
        ("i".to_string(), TagType::Int(42)),
        ("l".to_string(), TagType::Long(9007199254740991)),
        ("f".to_string(), TagType::Float(0x40490fdb)),
        ("d".to_string(), TagType::Double(0x400921fb54442d18)),
        ("ba".to_string(), TagType::ByteArray(vec![1, 2])),
        ("st".to_string(), TagType::Str("héllo".to_string())),
        (
            "li".to_string(),
            TagType::List(vec![
                TagType::Str("x".to_string()),
                TagType::Str("y".to_string()),
            ]),
        ),
        (
            "co".to_string(),
            TagType::Compound(vec![("in".to_string(), TagType::Int(1))]),
        ),
        ("ia".to_string(), TagType::IntArray(vec![7])),
        ("la".to_string(), TagType::LongArray(vec![8, 9])),
    ];
    let raw = to_nbt(&tree, FileType::Raw).unwrap();
    let json = to_json(&raw).unwrap();
    let back = resolve_tag_types(&json).unwrap();
    assert_eq!(back, tree);
}

#[test]
fn nested_list_suffix_chain_round_trips() {
    let inner1 = TagType::List(vec![TagType::Int(1), TagType::Int(2)]);
    let inner2 = TagType::List(vec![TagType::Int(3)]);
    let tree = vec![("ll".to_string(), TagType::List(vec![inner1, inner2]))];
    let raw = to_nbt(&tree, FileType::Raw).unwrap();
    let json = to_json(&raw).unwrap();
    match &json {
        JsonValue::Object(members) => assert_eq!(members[0].0, "ll;TAG_List;TAG_Int"),
        _ => panic!("expected an object"),
    }
    let back = resolve_tag_types(&json).unwrap();
    assert_eq!(back, tree);
}

#[test]
fn byte_width_enforced() {
    let json = JsonValue::Object(vec![("x;B".to_string(), num(200))]);
    assert_eq!(
        resolve_tag_types(&json),
        Err(TagResolvingError::UnsupportedValue)
    );
    let ok = JsonValue::Object(vec![("x;B".to_string(), num(100))]);
    let tree = resolve_tag_types(&ok).unwrap();
    assert_eq!(tree, vec![("x".to_string(), TagType::Byte(100))]);
    // Project it back: same suffix, same number.
    let raw = to_nbt(&tree, FileType::Raw).unwrap();
    let json2 = to_json(&raw).unwrap();
    match &json2 {
        JsonValue::Object(members) => {
            assert_eq!(members[0].0, "x;B");
            match &members[0].1 {
                JsonValue::Num(n) => assert_eq!(n.int_val, Some(100)),
                _ => panic!("expected a number"),
            }
        }
        _ => panic!("expected an object"),
    }
}

#[test]
fn short_width_enforced() {
    let json = JsonValue::Object(vec![("x;S".to_string(), num(40000))]);
    assert_eq!(
        resolve_tag_types(&json),
        Err(TagResolvingError::UnsupportedValue)
    );
}

#[test]
fn long_safe_range_boundary() {
    assert_eq!(
        LongNumber::from_i64(9007199254740991),
        LongNumber::Number(9007199254740991)
    );
    assert_eq!(
        LongNumber::from_i64(9007199254740992),
        LongNumber::BigInt("9007199254740992".to_string())
    );
    let tree = vec![
        ("in".to_string(), TagType::Long(9007199254740991)),
        ("out".to_string(), TagType::Long(9007199254740992)),
    ];
    let raw = to_nbt(&tree, FileType::Raw).unwrap();
    let json = to_json(&raw).unwrap();
    match &json {
        JsonValue::Object(members) => {
            assert_eq!(members[0].0, "in;L");
            match &members[0].1 {
                JsonValue::Num(n) => assert_eq!(n.int_val, Some(9007199254740991)),
                _ => panic!("expected a number"),
            }
            assert_eq!(members[1].0, "out;L");
            match &members[1].1 {
                JsonValue::Str(s) => assert_eq!(s, "9007199254740992"),
                _ => panic!("expected a string"),
            }
        }
        _ => panic!("expected an object"),
    }
}

#[test]
fn heterogeneous_list_is_rejected() {
    let tree = vec![(
        "bad".to_string(),
        TagType::List(vec![TagType::Byte(1), TagType::Short(2)]),
    )];
    assert_eq!(
        to_nbt(&tree, FileType::Raw),
        Err(TagResolvingError::UnsupportedValue)
    );
}

#[test]
fn empty_list_round_trips() {
    let tree = vec![("e".to_string(), TagType::List(vec![]))];
    let raw = to_nbt(&tree, FileType::Raw).unwrap();
    let back = nbt_to_json(&raw).unwrap();
    assert_eq!(back, TagType::Compound(vec![("e".to_string(), TagType::List(vec![]))]));
    let json = to_json(&raw).unwrap();
    let back2 = resolve_tag_types(&json).unwrap();
    assert_eq!(back2, tree);
}

#[test]
fn booleans_become_bytes() {
    let json = JsonValue::Object(vec![
        ("t".to_string(), JsonValue::Bool(true)),
        ("f".to_string(), JsonValue::Bool(false)),
    ]);
    let tree = resolve_tag_types(&json).unwrap();
    assert_eq!(
        tree,
        vec![
            ("t".to_string(), TagType::Byte(1)),
            ("f".to_string(), TagType::Byte(0)),
        ]
    );
}

#[test]
fn null_is_rejected() {
    let json = JsonValue::Object(vec![("n".to_string(), JsonValue::Null)]);
    assert_eq!(
        resolve_tag_types(&json),
        Err(TagResolvingError::UnsupportedValue)
    );
}

#[test]
fn array_without_suffix_is_rejected() {
    let json = JsonValue::Object(vec![("a".to_string(), JsonValue::Array(vec![num(1)]))]);
    assert_eq!(
        resolve_tag_types(&json),
        Err(TagResolvingError::UnsupportedValue)
    );
}

#[test]
fn malformed_envelope_is_reported() {
    assert_eq!(get_file_type(&[0x55, 0x66]), Err(NbtError::MalformedEnvelope));
    assert_eq!(get_file_type(&[0x0a]), Err(NbtError::MalformedEnvelope));
    assert_eq!(
        nbt_to_json(&[0x55, 0x66, 0x00]),
        Err(NbtError::MalformedEnvelope)
    );
}

#[test]
fn truncated_input_is_reported() {
    // Root compound opens an Int named "a" but the payload is missing.
    let bytes = [0x0au8, 0x00, 0x00, 0x03, 0x00, 0x01, 0x61];
    assert_eq!(nbt_to_json(&bytes), Err(NbtError::TruncatedInput));
}

#[test]
fn unknown_tag_type_is_reported() {
    let bytes = [0x0au8, 0x00, 0x00, 0x7f, 0x00, 0x01, 0x61, 0x00, 0x00];
    assert_eq!(nbt_to_json(&bytes), Err(NbtError::UnknownTagType(0x7f)));
}

#[test]
fn invalid_text_is_reported() {
    // A one-byte name 0xff is not valid modified UTF-8.
    let bytes = [0x0au8, 0x00, 0x00, 0x01, 0x00, 0x01, 0xff, 0x05, 0x00];
    assert_eq!(nbt_to_json(&bytes), Err(NbtError::InvalidText));
}

#[test]
fn modified_utf8_differs_from_plain_utf8_for_nul() {
    // A name holding U+0000 travels as the two-byte overlong form.
    let tree = vec![("\u{0}".to_string(), TagType::Byte(1))];
    let raw = to_nbt(&tree, FileType::Raw).unwrap();
    assert_eq!(&raw[4..6], &[0x00, 0x02]); // name length 2, not 1
    assert_eq!(&raw[6..8], &[0xc0, 0x80]);
    let back = nbt_to_json(&raw).unwrap();
    assert_eq!(back, TagType::Compound(tree));
}

#[test]
fn supplementary_character_travels_as_surrogate_pair() {
    let tree = vec![("k".to_string(), TagType::Str("\u{10401}".to_string()))];
    let raw = to_nbt(&tree, FileType::Raw).unwrap();
    // Six bytes of payload: a surrogate pair, not the 4-byte UTF-8 form.
    assert_eq!(&raw[7..9], &[0x00, 0x06]);
    let back = nbt_to_json(&raw).unwrap();
    assert_eq!(back, TagType::Compound(tree));
}

#[test]
fn duplicate_compound_names_overwrite() {
    // Two children named "a": the later value wins.
    let bytes = [
        0x0au8, 0x00, 0x00, 0x01, 0x00, 0x01, 0x61, 0x05, 0x01, 0x00, 0x01, 0x61, 0x07, 0x00,
    ];
    let back = nbt_to_json(&bytes).unwrap();
    assert_eq!(
        back,
        TagType::Compound(vec![("a".to_string(), TagType::Byte(7))])
    );
}

#[test]
fn decimal_rendering_is_exact() {
    assert_eq!(i64_to_dec(0), "0");
    assert_eq!(i64_to_dec(-1), "-1");
    assert_eq!(i64_to_dec(9007199254740992), "9007199254740992");
    assert_eq!(i64_to_dec(i64::MAX), "9223372036854775807");
    assert_eq!(i64_to_dec(i64::MIN), "-9223372036854775808");
}

#[test]
fn tag_type_names_map_both_ways() {
    assert_eq!(TagType::u8_to_str(0x01), Ok("TAG_Byte"));
    assert_eq!(TagType::u8_to_str(0x0c), Ok("TAG_Long_Array"));
    assert!(TagType::u8_to_str(0x0d).is_err());
    assert_eq!(TagType::str_to_u8("TAG_Byte"), Ok(0x01));
    assert_eq!(TagType::str_to_u8("TAG_Compound"), Ok(0x0a));
    assert!(TagType::str_to_u8("TAG_Nothing").is_err());
}

#[test]
fn resolve_compound_handles_nested_objects() {
    let json = vec![(
        "outer".to_string(),
        JsonValue::Object(vec![("inner;L".to_string(), num(5))]),
    )];
    let tree = resolve_compound(&json).unwrap();
    assert_eq!(
        tree,
        vec![(
            "outer".to_string(),
            TagType::Compound(vec![("inner".to_string(), TagType::Long(5))])
        )]
    );
}

#[test]
fn float_suffix_takes_float_width_bits() {
    let one_and_half = JsonValue::Num(JsonNumber {
        int_val: None,
        is_float: true,
        f64_bits: Some(0x3ff8000000000000),
        f32_bits: Some(0x3fc00000),
    });
    let json = JsonValue::Object(vec![("x;F".to_string(), one_and_half)]);
    let tree = resolve_tag_types(&json).unwrap();
    assert_eq!(tree, vec![("x".to_string(), TagType::Float(0x3fc00000))]);
}

#[test]
fn unsuffixed_float_number_becomes_double() {
    let one_and_half = JsonValue::Num(JsonNumber {
        int_val: None,
        is_float: true,
        f64_bits: Some(0x3ff8000000000000),
        f32_bits: Some(0x3fc00000),
    });
    let json = JsonValue::Object(vec![("x".to_string(), one_and_half)]);
    let tree = resolve_tag_types(&json).unwrap();
    assert_eq!(
        tree,
        vec![("x".to_string(), TagType::Double(0x3ff8000000000000))]
    );
}

#[test]
fn error_message_text() {
    assert_eq!(
        TagResolvingError::UnsupportedValue.message(),
        "Unsupported value."
    );
}

#[test]
fn duplicate_names_in_nested_compound_overwrite() {
    // Root holds compound "c" whose body names "a" twice: Byte 5 then Byte 9.
    let bytes = [
        0x0au8, 0x00, 0x00, // root
        0x0a, 0x00, 0x01, 0x63, // compound "c"
        0x01, 0x00, 0x01, 0x61, 0x05, // Byte "a" = 5
        0x01, 0x00, 0x01, 0x61, 0x09, // Byte "a" = 9
        0x00, // end of "c"
        0x00, // end of root
    ];
    let back = nbt_to_json(&bytes).unwrap();
    assert_eq!(
        back,
        TagType::Compound(vec![(
            "c".to_string(),
            TagType::Compound(vec![("a".to_string(), TagType::Byte(9))])
        )])
    );
}

#[test]
fn undecodable_gzip_stream_is_a_malformed_envelope() {
    // The gzip magic number followed by bytes no decoder accepts.
    let bytes = [0x1fu8, 0x8b, 0xff, 0xff, 0xff, 0xff];
    assert_eq!(nbt_to_json(&bytes), Err(NbtError::MalformedEnvelope));
}
