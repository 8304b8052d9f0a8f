use base64::data_to_octets;
use base64::decode;
use base64::encode;
use base64::index_of;
use base64::value_of;
use base64::InvalidInputError;

// --- decoding ---

#[test]
fn decode_decode_empty_string() {
    assert_eq!(decode(b"").unwrap(), b"");
}

#[test]
fn decode_decode_unpadded() {
    assert_eq!(decode(b"Zm9v").unwrap(), b"foo");
    assert_eq!(decode(b"Zm9vYmFy").unwrap(), b"foobar");
}

#[test]
fn decode_decode_with_double_pad() {
    assert_eq!(decode(b"Zg==").unwrap(), b"f");
    assert_eq!(decode(b"Zm9vYg==").unwrap(), b"foob");
}

#[test]
fn decode_decode_with_single_pad() {
    assert_eq!(decode(b"Zm8=").unwrap(), b"fo");
    assert_eq!(decode(b"Zm9vYmE=").unwrap(), b"fooba");
}

#[test]
fn lib_decode_empty_string() {
    assert_eq!(decode(b"").unwrap(), b"");
}

#[test]
fn lib_decode_unpadded() {
    assert_eq!(decode(b"Zm9v").unwrap(), b"foo");
    assert_eq!(decode(b"Zm9vYmFy").unwrap(), b"foobar");
}

#[test]
fn lib_decode_with_double_pad() {
    assert_eq!(decode(b"Zg==").unwrap(), b"f");
    assert_eq!(decode(b"Zm9vYg==").unwrap(), b"foob");
}

#[test]
fn lib_decode_with_single_pad() {
    assert_eq!(decode(b"Zm8=").unwrap(), b"fo");
    assert_eq!(decode(b"Zm9vYmE=").unwrap(), b"fooba");
}

#[test]
fn decode_invalid_input() {
    assert_eq!(decode(b"Zm9vYmE"), Err(InvalidInputError));
}

#[test]
fn decode_to_binary_data() {
    assert_eq!(decode(b"MIID").unwrap(), [48, 130, 3]);
}

// --- octet grouping ---

#[test]
fn test_empty_string_to_octets() {
    let s = String::from("");
    let expected: Vec<Vec<u8>> = vec![];
    assert_eq!(data_to_octets(s.as_bytes()), expected);
}

#[test]
fn test_string_to_octets() {
    let s = String::from("foobar");
    let expected: Vec<Vec<u8>> = vec![vec![102, 111, 111], vec![98, 97, 114]];
    assert_eq!(data_to_octets(s.as_bytes()), expected);
}

#[test]
fn test_string_to_less_than_perfect_octets() {
    let s = String::from("foob");
    let expected: Vec<Vec<u8>> = vec![vec![102, 111, 111], vec![98]];
    assert_eq!(data_to_octets(s.as_bytes()), expected);
}

#[test]
fn lib_test_empty_string_to_octets() {
    let s = String::from("");
    let expected: Vec<Vec<u8>> = vec![];
    assert_eq!(data_to_octets(s.as_bytes()), expected);
}

#[test]
fn lib_test_string_to_octets() {
    let s = String::from("foobar");
    let expected: Vec<Vec<u8>> = vec![vec![102, 111, 111], vec![98, 97, 114]];
    assert_eq!(data_to_octets(s.as_bytes()), expected);
}

#[test]
fn lib_test_string_to_less_than_perfect_octets() {
    let s = String::from("foob");
    let expected: Vec<Vec<u8>> = vec![vec![102, 111, 111], vec![98]];
    assert_eq!(data_to_octets(s.as_bytes()), expected);
}

// --- encoding ---

#[test]
fn encode_encode_empty_string() {
    assert_eq!(encode(String::from("").as_bytes()), "");
}

#[test]
fn encode_encode_unpadded() {
    assert_eq!(encode(String::from("foo").as_bytes()), "Zm9v");
    assert_eq!(encode(String::from("foobar").as_bytes()), "Zm9vYmFy");
}

#[test]
fn encode_encode_with_double_pad() {
    assert_eq!(encode(String::from("f").as_bytes()), "Zg==");
    assert_eq!(encode(String::from("foob").as_bytes()), "Zm9vYg==");
}

#[test]
fn encode_encode_with_single_pad() {
    assert_eq!(encode(String::from("fo").as_bytes()), "Zm8=");
    assert_eq!(encode(String::from("fooba").as_bytes()), "Zm9vYmE=");
}

#[test]
fn lib_encode_empty_string() {
    assert_eq!(encode(String::from("").as_bytes()), "");
}

#[test]
fn lib_encode_unpadded() {
    assert_eq!(encode(String::from("foo").as_bytes()), "Zm9v");
    assert_eq!(encode(String::from("AMT").as_bytes()), "QU1U");
    assert_eq!(encode(String::from("foobar").as_bytes()), "Zm9vYmFy");
}

#[test]
fn lib_encode_with_double_pad() {
    assert_eq!(encode(String::from("f").as_bytes()), "Zg==");
    assert_eq!(encode(String::from("foob").as_bytes()), "Zm9vYg==");
}

#[test]
fn lib_encode_with_single_pad() {
    assert_eq!(encode(String::from("fo").as_bytes()), "Zm8=");
    assert_eq!(encode(String::from("fooba").as_bytes()), "Zm9vYmE=");
}

#[test]
fn encode_with_newlines() {
    assert_eq!(encode(String::from("foo\nbar").as_bytes()), "Zm9vCmJhcg==");
}

#[test]
fn encode_binary_data() {
    let binary_data: [u8; 5] = [222, 216, 77, 179, 186];

    assert_eq!(encode(&binary_data[..1]), String::from("3g=="));
    assert_eq!(encode(&binary_data[..2]), String::from("3tg="));
    assert_eq!(encode(&binary_data[..3]), String::from("3thN"));
    assert_eq!(encode(&binary_data[..]), String::from("3thNs7o="));
}
