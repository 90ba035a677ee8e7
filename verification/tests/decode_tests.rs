use nbt_parser::decode::decode_payload;
use nbt_parser::{decode, decode_uncompressed, NamedTag, NbtError, UnnamedTag};

fn named(name: &str, content: UnnamedTag) -> NamedTag {
    NamedTag { name: name.to_string(), content }
}

#[test]
fn empty_compound_root() {
    // Compound, empty name, immediate End terminator; a trailing byte is ignored.
    let bytes = vec![0x0A, 0x00, 0x00, 0x00, 0x00];
    let tree = decode_uncompressed(&bytes).unwrap();
    assert_eq!(tree, named("", UnnamedTag::Compound(vec![])));
}

#[test]
fn int_named_x_is_42() {
    let bytes = vec![0x03, 0x00, 0x01, b'x', 0x00, 0x00, 0x00, 0x2A];
    let tree = decode_uncompressed(&bytes).unwrap();
    assert_eq!(tree, named("x", UnnamedTag::Int(42)));
}

#[test]
fn negative_byte_array_length_is_invalid() {
    // ByteArray, empty name, declared length -1 (0xFFFFFFFF signed).
    let bytes = vec![0x07, 0x00, 0x00, 0xFF, 0xFF, 0xFF, 0xFF];
    assert_eq!(decode_uncompressed(&bytes), Err(NbtError::InvalidLength));
}

#[test]
fn truncated_string_is_not_a_short_read() {
    // String, empty name, declared length 5 but only 3 bytes remain.
    let bytes = vec![0x08, 0x00, 0x00, 0x00, 0x05, b'a', b'b', b'c'];
    assert_eq!(decode_uncompressed(&bytes), Err(NbtError::TruncatedInput));
}

#[test]
fn unknown_tag_type_11() {
    let bytes = vec![0x0B, 0x00, 0x00];
    assert_eq!(decode_uncompressed(&bytes), Err(NbtError::UnknownTagType(11)));
}

#[test]
fn empty_list_ignores_element_type_and_consumes_five_bytes() {
    // A list payload: element type id 0x63 (nonsense), count 0.
    let bytes = vec![0x63, 0x00, 0x00, 0x00, 0x00, 0xEE];
    let (tag, consumed) = decode_payload(&bytes, 0, 9, 1).unwrap();
    assert_eq!(tag, UnnamedTag::List(vec![]));
    assert_eq!(consumed, 5);
    // The same holds with element type id 0 (the usual empty-list encoding).
    let bytes = vec![0x00, 0x00, 0x00, 0x00, 0x00];
    let (tag, consumed) = decode_payload(&bytes, 0, 9, 1).unwrap();
    assert_eq!(tag, UnnamedTag::List(vec![]));
    assert_eq!(consumed, 5);
}

#[test]
fn empty_list_as_named_root() {
    let bytes = vec![0x09, 0x00, 0x00, 0x00, 0x00, 0x00, 0x00, 0x00];
    let tree = decode_uncompressed(&bytes).unwrap();
    assert_eq!(tree, named("", UnnamedTag::List(vec![])));
}

#[test]
fn list_of_two_ints() {
    let bytes = vec![
        0x09, 0x00, 0x00, // List, empty name
        0x03, 0x00, 0x00, 0x00, 0x02, // element type Int, count 2
        0x00, 0x00, 0x00, 0x01, // 1
        0xFF, 0xFF, 0xFF, 0xFE, // -2
    ];
    let tree = decode_uncompressed(&bytes).unwrap();
    assert_eq!(
        tree,
        named("", UnnamedTag::List(vec![UnnamedTag::Int(1), UnnamedTag::Int(-2)]))
    );
}

#[test]
fn trailing_bytes_after_the_root_tag_are_ignored() {
    // A root list of two End sentinels consumes 8 bytes; whatever follows,
    // or nothing at all, decoding yields the same tree.
    let with_trailing = vec![0x09, 0x00, 0x00, 0x00, 0x00, 0x00, 0x00, 0x02, 0xAA, 0xBB];
    let prefix = vec![0x09, 0x00, 0x00, 0x00, 0x00, 0x00, 0x00, 0x02];
    let t1 = decode_uncompressed(&with_trailing).unwrap();
    let t2 = decode_uncompressed(&prefix).unwrap();
    assert_eq!(t1, t2);
    assert_eq!(
        t1,
        named("", UnnamedTag::List(vec![UnnamedTag::End, UnnamedTag::End]))
    );
}

#[test]
fn end_sentinel_elements_consume_no_bytes() {
    // A list payload with element type 0 and count 1, nothing following:
    // the sentinel occupies no bytes, so only the 5 header bytes are read.
    let bytes = vec![0x00, 0x00, 0x00, 0x00, 0x01];
    let (tag, consumed) = decode_payload(&bytes, 0, 9, 1).unwrap();
    assert_eq!(tag, UnnamedTag::List(vec![UnnamedTag::End]));
    assert_eq!(consumed, 5);
}

#[test]
fn invalid_list_element_type_fails_at_dispatch() {
    // Element type 11 with count 1: the first element's dispatch names the
    // bad id, exactly as the named-tag dispatch would.
    let bytes = vec![0x09, 0x00, 0x00, 0x0B, 0x00, 0x00, 0x00, 0x01];
    assert_eq!(decode_uncompressed(&bytes), Err(NbtError::UnknownTagType(11)));
}

#[test]
fn end_list_count_beyond_the_cap_is_invalid() {
    // Element type 0 with count 0x10000, one above the cap.
    let bytes = vec![0x09, 0x00, 0x00, 0x00, 0x00, 0x01, 0x00, 0x00];
    assert_eq!(decode_uncompressed(&bytes), Err(NbtError::InvalidLength));
}

#[test]
fn list_count_larger_than_remaining_input_is_invalid() {
    let bytes = vec![0x09, 0x00, 0x00, 0x01, 0x7F, 0xFF, 0xFF, 0xFF];
    assert_eq!(decode_uncompressed(&bytes), Err(NbtError::InvalidLength));
}

#[test]
fn negative_list_count_is_invalid() {
    let bytes = vec![0x09, 0x00, 0x00, 0x01, 0xFF, 0xFF, 0xFF, 0xFF];
    assert_eq!(decode_uncompressed(&bytes), Err(NbtError::InvalidLength));
}

#[test]
fn scalar_payloads_reassemble_big_endian() {
    let bytes = vec![0x01, 0x00, 0x00, 0x80];
    assert_eq!(
        decode_uncompressed(&bytes).unwrap(),
        named("", UnnamedTag::Byte(-128))
    );
    let bytes = vec![0x02, 0x00, 0x00, 0xFF, 0xFE];
    assert_eq!(
        decode_uncompressed(&bytes).unwrap(),
        named("", UnnamedTag::Short(-2))
    );
    let bytes = vec![0x04, 0x00, 0x00, 0x00, 0x00, 0x00, 0x00, 0x00, 0x00, 0x00, 0x2A];
    assert_eq!(
        decode_uncompressed(&bytes).unwrap(),
        named("", UnnamedTag::Long(42))
    );
}

#[test]
fn float_and_double_keep_their_bit_patterns() {
    let bytes = vec![0x05, 0x00, 0x00, 0x3F, 0x80, 0x00, 0x00];
    let tree = decode_uncompressed(&bytes).unwrap();
    assert_eq!(tree.content, UnnamedTag::Float(0x3F800000));
    if let UnnamedTag::Float(bits) = tree.content {
        assert_eq!(f32::from_bits(bits), 1.0f32);
    }
    let bytes = vec![0x06, 0x00, 0x00, 0x40, 0x09, 0x21, 0xFB, 0x54, 0x44, 0x2D, 0x18];
    let tree = decode_uncompressed(&bytes).unwrap();
    assert_eq!(tree.content, UnnamedTag::Double(0x400921FB54442D18));
    if let UnnamedTag::Double(bits) = tree.content {
        assert!((f64::from_bits(bits) - 3.141592653589793).abs() < 1e-15);
    }
}

#[test]
fn byte_array_reinterprets_bits() {
    let bytes = vec![0x07, 0x00, 0x00, 0x00, 0x00, 0x00, 0x02, 0xFF, 0x01];
    let tree = decode_uncompressed(&bytes).unwrap();
    assert_eq!(tree, named("", UnnamedTag::ByteArray(vec![-1, 1])));
}

#[test]
fn string_payload_decodes_utf8() {
    let bytes = vec![0x08, 0x00, 0x00, 0x00, 0x02, 0xC3, 0xA9];
    let tree = decode_uncompressed(&bytes).unwrap();
    assert_eq!(tree, named("", UnnamedTag::String("\u{e9}".to_string())));
}

#[test]
fn invalid_utf8_in_name_aborts_the_decode() {
    let bytes = vec![0x03, 0x00, 0x01, 0xFF, 0x00, 0x00, 0x00, 0x01];
    assert_eq!(decode_uncompressed(&bytes), Err(NbtError::InvalidEncoding));
}

#[test]
fn compound_keeps_substantive_tags_in_order() {
    let bytes = vec![
        0x0A, 0x00, 0x00, // Compound, empty name
        0x01, 0x00, 0x01, b'a', 0x07, // Byte "a" = 7
        0x08, 0x00, 0x01, b'b', 0x00, 0x02, b'h', b'i', // String "b" = "hi"
        0x00, // End terminator, consumed and dropped
    ];
    let tree = decode_uncompressed(&bytes).unwrap();
    assert_eq!(
        tree,
        named(
            "",
            UnnamedTag::Compound(vec![
                named("a", UnnamedTag::Byte(7)),
                named("b", UnnamedTag::String("hi".to_string())),
            ])
        )
    );
}

#[test]
fn missing_compound_terminator_is_truncation() {
    let bytes = vec![0x0A, 0x00, 0x00, 0x01, 0x00, 0x01, b'a', 0x07];
    assert_eq!(decode_uncompressed(&bytes), Err(NbtError::TruncatedInput));
}

#[test]
fn empty_input_is_truncated() {
    let bytes: Vec<u8> = vec![];
    assert_eq!(decode_uncompressed(&bytes), Err(NbtError::TruncatedInput));
}

#[test]
fn nesting_beyond_the_limit_is_rejected() {
    // A named root list, then 600 nested single-element lists of lists.
    let mut bytes = vec![0x09, 0x00, 0x00];
    for _ in 0..600 {
        bytes.extend_from_slice(&[0x09, 0x00, 0x00, 0x00, 0x01]);
    }
    assert_eq!(decode_uncompressed(&bytes), Err(NbtError::NestingTooDeep));
}

#[test]
fn decode_rejects_bytes_that_are_not_gzip() {
    let bytes = vec![0x01, 0x02, 0x03];
    assert_eq!(decode(&bytes), Err(NbtError::DecompressionFailed));
}

#[test]
fn decode_agrees_with_decode_uncompressed_on_gzipped_input() {
    let raw = vec![
        0x0A, 0x00, 0x00, // Compound, empty name
        0x03, 0x00, 0x01, b'x', 0x00, 0x00, 0x00, 0x2A, // Int "x" = 42
        0x09, 0x00, 0x01, b'l', 0x01, 0x00, 0x00, 0x00, 0x01, 0x05, // List "l" = [Byte 5]
        0x00,
    ];
    let mut encoder = libflate::gzip::Encoder::new(Vec::new()).unwrap();
    std::io::Write::write_all(&mut encoder, &raw).unwrap();
    let compressed = encoder.finish().into_result().unwrap();

    let via_decode = decode(&compressed).unwrap();
    let via_uncompressed = decode_uncompressed(&raw).unwrap();
    assert_eq!(via_decode, via_uncompressed);
    assert_eq!(
        via_decode,
        named(
            "",
            UnnamedTag::Compound(vec![
                named("x", UnnamedTag::Int(42)),
                named("l", UnnamedTag::List(vec![UnnamedTag::Byte(5)])),
            ])
        )
    );
}

#[test]
fn cloned_trees_equal_their_originals() {
    let bytes = vec![
        0x0A, 0x00, 0x00, // Compound, empty name
        0x07, 0x00, 0x01, b'a', 0x00, 0x00, 0x00, 0x02, 0xFF, 0x01, // ByteArray "a"
        0x09, 0x00, 0x01, b'l', 0x08, 0x00, 0x00, 0x00, 0x01, 0x00, 0x02, b'h', b'i', // List "l" = ["hi"]
        0x00,
    ];
    let tree = decode_uncompressed(&bytes).unwrap();
    let copy = tree.clone();
    assert_eq!(copy, tree);
    let inner = tree.content.clone();
    assert_eq!(inner, tree.content);
}
