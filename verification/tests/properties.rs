use base64::decode;
use base64::encode;
use base64::index_of;
use base64::value_of;

#[test]
fn round_trip_over_all_group_shapes() {
    let data: Vec<u8> = vec![0, 255, 17, 128, 64, 3, 250, 9, 77, 180, 222];
    for take in 0..=data.len() {
        let original = &data[..take];
        let text = encode(original);
        assert_eq!(decode(text.as_bytes()).unwrap(), original);
    }
}

#[test]
fn round_trip_binary_vector() {
    let data: [u8; 5] = [0xDE, 0xD8, 0x4D, 0xB3, 0xBA];
    let text = encode(&data);
    assert_eq!(text, "3thNs7o=");
    assert_eq!(decode(text.as_bytes()).unwrap(), data);
}

#[test]
fn table_lookups_are_mutually_inverse() {
    for i in 0..64u8 {
        assert_eq!(index_of(value_of(i)), Some(i));
    }
}

#[test]
fn index_of_rejects_foreign_characters() {
    assert_eq!(index_of(b'='), None);
    assert_eq!(index_of(b'!'), None);
    assert_eq!(index_of(b'\n'), None);
    assert_eq!(index_of(0), None);
    assert_eq!(index_of(255), None);
}

#[test]
fn output_length_is_a_multiple_of_four() {
    let data: Vec<u8> = vec![42, 1, 2, 3, 4, 5, 6, 7];
    for take in 1..=data.len() {
        let text = encode(&data[..take]);
        assert!(!text.is_empty());
        assert_eq!(text.len() % 4, 0);
    }
}

#[test]
fn padding_count_follows_input_length() {
    let data: Vec<u8> = vec![9, 8, 7, 6, 5, 4, 3];
    for take in 0..=data.len() {
        let text = encode(&data[..take]);
        let pads = text.chars().rev().take_while(|c| *c == '=').count();
        assert_eq!(pads, (3 - take % 3) % 3);
    }
}

#[test]
fn decode_rejects_malformed_length() {
    assert!(decode(b"Zm9vYmE").is_err());
    assert!(decode(b"Z").is_err());
    assert!(decode(b"Zm9").is_err());
}

#[test]
fn decode_rejects_invalid_symbol() {
    assert!(decode(b"Z!9v").is_err());
}

#[test]
fn decode_rejects_misplaced_pad() {
    assert!(decode(b"=g==").is_err());
    assert!(decode(b"Z===").is_err());
    assert!(decode(b"Zg=v").is_err());
    assert!(decode(b"Zg==Zm9v").is_err());
    assert!(decode(b"Zm8=Zm9v").is_err());
}
