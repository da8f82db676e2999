use pika::base64::{base64_decode, base64_encode};

#[test]
fn encode_known_values() {
    assert_eq!(base64_encode(String::new()), "");
    assert_eq!(base64_encode("hello".to_string()), "aGVsbG8=");
    assert_eq!(base64_encode("hi".to_string()), "aGk=");
    assert_eq!(base64_encode("a".to_string()), "YQ==");
    assert_eq!(base64_encode("abc".to_string()), "YWJj");
    assert_eq!(base64_encode("123456789".to_string()), "MTIzNDU2Nzg5");
}

#[test]
fn decode_inverts_encode() {
    for input in ["", "a", "ab", "abc", "hello world", "1650153600100", "h\u{e9}llo"] {
        let encoded = base64_encode(input.to_string());
        let decoded = base64_decode(&encoded).unwrap();
        assert_eq!(decoded, input.as_bytes().to_vec());
    }
}

#[test]
fn decode_tolerates_missing_padding() {
    assert_eq!(base64_decode("aGVsbG8").unwrap(), b"hello".to_vec());
    assert_eq!(base64_decode("YQ").unwrap(), b"a".to_vec());
    assert_eq!(base64_decode("").unwrap(), Vec::<u8>::new());
}

#[test]
fn decode_rejects_bad_input() {
    // a character outside the alphabet
    assert_eq!(base64_decode("ab!d"), None);
    // a lone trailing symbol leaves six undecodable bits
    assert_eq!(base64_decode("a"), None);
    assert_eq!(base64_decode("abcde"), None);
    // more than two padding characters
    assert_eq!(base64_decode("AB==="), None);
    // data after padding combined with leftover bits
    assert_eq!(base64_decode("ab==a"), None);
}
