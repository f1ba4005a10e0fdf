use sstkv::codec::{key_order, DecodeError, KeyCodec, KeyOrder};

#[test]
fn encode_puts_the_prefix_in_front() {
    assert_eq!(KeyCodec::encode(b"users/", b"alice"), b"users/alice".to_vec());
    assert_eq!(KeyCodec::encode(b"", b"alice"), b"alice".to_vec());
    assert_eq!(KeyCodec::encode(b"users/", b""), b"users/".to_vec());
}

#[test]
fn decode_cuts_the_prefix_off() {
    assert_eq!(KeyCodec::decode(b"users/", b"users/alice"), Ok(b"alice".to_vec()));
    assert_eq!(KeyCodec::decode(b"", b"alice"), Ok(b"alice".to_vec()));
    assert_eq!(KeyCodec::decode(b"users/", b"users/"), Ok(Vec::new()));
}

#[test]
fn decode_rejects_a_key_of_another_prefix() {
    assert_eq!(KeyCodec::decode(b"users/", b"orders/1"), Err(DecodeError::PrefixMismatch));
    assert_eq!(KeyCodec::decode(b"users/", b"user"), Err(DecodeError::PrefixMismatch));
    assert_eq!(KeyCodec::decode(b"users/", b""), Err(DecodeError::PrefixMismatch));
}

#[test]
fn keys_are_ordered_byte_by_byte() {
    assert_eq!(key_order(b"a", b"b"), KeyOrder::Less);
    assert_eq!(key_order(b"b", b"a"), KeyOrder::Greater);
    assert_eq!(key_order(b"ab", b"ab"), KeyOrder::Equal);
    assert_eq!(key_order(b"a", b"ab"), KeyOrder::Less);
    assert_eq!(key_order(b"", b""), KeyOrder::Equal);
    assert_eq!(key_order(b"", b"\x00"), KeyOrder::Less);
    assert_eq!(key_order(b"\xff", b"\x00\x00"), KeyOrder::Greater);
}
