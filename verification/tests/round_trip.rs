use huffman::{decode, encode, Encoded, HuffError};

#[test]
fn round_trip_repetitive_data() {
    let data = b"aaaaaaaaaaaaaaaaaaaab";
    assert_eq!(decode(&encode(data).unwrap()).unwrap(), data);
}

#[test]
fn round_trip_varied_data() {
    let data = b"abcdefghijabcdefghij";
    assert_eq!(decode(&encode(data).unwrap()).unwrap(), data);
}

#[test]
fn repetitive_data_is_smaller_overall() {
    let data = b"aaaaaaaaaaaaaaaaaaaab";
    assert!(encode(data).unwrap().len() < data.len());
}

#[test]
fn non_repetitive_data_has_smaller_data_part() {
    let data = b"abcdefghijabcdefghij";
    let encoded = Encoded::from_bytes(&encode(data).unwrap()).unwrap();
    assert!(encoded.bytes.len() < data.len());
}

#[test]
fn round_trip_of_mixed_text() {
    let data = b"the quick brown fox jumps over the lazy dog, twice over";
    let packed = encode(data).unwrap();
    assert_eq!(decode(&packed).unwrap(), data.to_vec());
}

#[test]
fn round_trip_of_255_distinct_bytes() {
    let mut data: Vec<u8> = Vec::new();
    for b in 0u8..255 {
        data.push(b);
        if b % 3 == 0 {
            data.push(b);
        }
    }
    let packed = encode(&data).unwrap();
    assert_eq!(packed[1], 255);
    assert_eq!(decode(&packed).unwrap(), data);
}

#[test]
fn count_byte_wraps_with_all_256_byte_values() {
    let data: Vec<u8> = (0u8..=255).collect();
    let packed = encode(&data).unwrap();
    assert_eq!(packed[1], 0);
    assert_eq!(decode(&packed), Err(HuffError::InsufficientSymbols));
}

#[test]
fn two_symbols_get_one_bit_each() {
    let packed = encode(b"ab").unwrap();
    assert_eq!(packed, vec![6, 2, b'a', b'b', 0b0100_0000]);
    assert_eq!(decode(&packed).unwrap(), b"ab".to_vec());
}

#[test]
fn skewed_input_packs_into_three_bytes() {
    let data = b"aaaaaaaaaaaaaaaaaaaab";
    let packed = encode(data).unwrap();
    assert_eq!(packed, vec![3, 2, b'a', b'b', 0x00, 0x00, 0b0000_1000]);
    let encoded = Encoded::from_bytes(&packed).unwrap();
    assert!(encoded.bytes.len() < 21);
    assert_eq!(encoded.bytes.len(), 3);
    assert_eq!(encoded.padding, 3);
}

#[test]
fn uniform_input_packs_into_fourteen_bytes() {
    let data = b"abcdefghijabcdefghij";
    let encoded = Encoded::from_bytes(&encode(data).unwrap()).unwrap();
    assert!(encoded.bytes.len() < 20);
    assert_eq!(encoded.bytes.len(), 14);
    assert_eq!(encoded.padding, 4);
    assert_eq!(encoded.tree, b"\x0aabcdefghij".to_vec());
    assert!(encoded.bytes.len() > 3);
}

#[test]
fn single_symbol_is_rejected() {
    assert_eq!(encode(b"aaaa"), Err(HuffError::InsufficientSymbols));
    assert_eq!(encode(b"z"), Err(HuffError::InsufficientSymbols));
}

#[test]
fn empty_input_is_rejected() {
    assert_eq!(encode(b""), Err(HuffError::EmptyInput));
}

#[test]
fn short_container_is_malformed() {
    assert_eq!(decode(&[]), Err(HuffError::MalformedContainer));
    assert_eq!(decode(&[0]), Err(HuffError::MalformedContainer));
    assert_eq!(decode(&[0, 5, 1, 2]), Err(HuffError::MalformedContainer));
}

#[test]
fn padding_beyond_the_data_is_malformed() {
    assert_eq!(decode(&[1, 2, b'a', b'b']), Err(HuffError::MalformedContainer));
    assert_eq!(decode(&[9, 2, b'a', b'b', 0x00]), Err(HuffError::MalformedContainer));
}

#[test]
fn container_with_one_symbol_is_rejected() {
    assert_eq!(decode(&[0, 1, b'a']), Err(HuffError::InsufficientSymbols));
    assert_eq!(decode(&[0, 0]), Err(HuffError::InsufficientSymbols));
}

#[test]
fn bits_that_end_inside_a_code_word_are_truncated() {
    assert_eq!(decode(&[7, 3, b'a', b'b', b'c', 0b1000_0000]), Err(HuffError::TruncatedBitstream));
    assert_eq!(decode(&[6, 3, b'a', b'b', b'c', 0b1000_0000]), Ok(vec![b'b']));
    assert_eq!(decode(&[6, 3, b'a', b'b', b'c', 0b1100_0000]), Ok(vec![b'c']));
}

#[test]
fn padding_bits_are_never_read() {
    assert_eq!(decode(&[5, 2, b'a', b'b', 0b0101_1111]), Ok(b"aba".to_vec()));
    assert_eq!(decode(&[0, 2, b'a', b'b']), Ok(Vec::new()));
    assert_eq!(decode(&[8, 2, b'a', b'b', 0b0100_0000, 0xff]), Ok(b"abaaaaaa".to_vec()));
}
